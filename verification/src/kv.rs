//! A key-value store over HTTP: an open-addressing hash table of `MAX_ENTRIES` slots with
//! linear probing from the FNV-1a hash of the key, where deleted slots become tombstones
//! that probing walks past.

use vstd::prelude::*;
use crate::bytes::{bytes_eq, extend, min, has_prefix};
use crate::hash::{fnv1a, fnv1a_hash};
use crate::http::{lit, lit_bytes, find_header_end, header_end_of, lemma_blank_line_from, request_line_parts,
    parse_request_line, method_is, path_eq, path_starts_with, content_length_of, parse_content_length,
    response_head, build_response};
use crate::numfmt::{dec_digits, format_u32};
use crate::objstore::text_response;

verus! {

/// How many slots the table has.
pub const MAX_ENTRIES: usize = 256;
/// The longest key.
pub const MAX_KEY_LEN: usize = 64;
/// How many bytes of a value are kept.
pub const MAX_VAL_LEN: usize = 256;
/// How many entries the store takes: three quarters of its slots.
pub const MAX_LOAD: usize = 192;

/// What a slot holds.
#[derive(PartialEq, Eq, Structural, Clone, Copy)]
pub enum SlotState {
    Empty,
    Occupied,
    Tombstone,
}

/// One slot of the table.
pub struct Entry {
    pub state: SlotState,
    pub key: Vec<u8>,
    pub val: Vec<u8>,
}

/// A slot as the specification sees it.
pub struct EntryModel {
    pub state: SlotState,
    pub key: Seq<u8>,
    pub val: Seq<u8>,
}

impl View for Entry {
    type V = EntryModel;

    open spec fn view(&self) -> EntryModel {
        EntryModel { state: self.state, key: self.key@, val: self.val@ }
    }
}

/// The store: its slots and how many of them hold an entry.
pub struct KvStore {
    pub entries: Vec<Entry>,
    pub count: usize,
}

/// The slot where probing for `key` starts.
pub open spec fn home(key: Seq<u8>) -> int {
    (fnv1a(key) % 256) as int
}

/// The slot `d` steps after slot `h`, wrapping around.
pub open spec fn probe(h: int, d: int) -> int {
    (h + d) % 256
}

/// How many steps lead from slot `h` to slot `j`.
pub open spec fn dist(h: int, j: int) -> int {
    (j - h + 256) % 256
}

/// The slot holds an entry under `key`.
pub open spec fn holds(e: EntryModel, key: Seq<u8>) -> bool {
    e.state == SlotState::Occupied && e.key == key
}

/// Probing for `key` from step `p` on: the slot that holds it, or `None` once an empty slot
/// or the last step is reached.
pub open spec fn find_from(s: Seq<EntryModel>, key: Seq<u8>, p: int) -> Option<int>
    decreases 256 - p,
{
    if p < 0 || p >= 256 {
        None
    } else {
        let i = probe(home(key), p);
        match s[i].state {
            SlotState::Empty => None,
            SlotState::Occupied => if s[i].key == key {
                Some(i)
            } else {
                find_from(s, key, p + 1)
            },
            SlotState::Tombstone => find_from(s, key, p + 1),
        }
    }
}

/// Where the store finds `key`.
pub open spec fn find_key(s: Seq<EntryModel>, key: Seq<u8>) -> Option<int> {
    find_from(s, key, 0)
}

/// The first slot from step `p` on, probing from `h`, that holds no entry.
pub open spec fn free_from(s: Seq<EntryModel>, h: int, p: int) -> Option<int>
    decreases 256 - p,
{
    if p < 0 || p >= 256 {
        None
    } else if s[probe(h, p)].state != SlotState::Occupied {
        Some(probe(h, p))
    } else {
        free_from(s, h, p + 1)
    }
}

/// No slot between an entry's home slot and its own slot is empty, so that probing reaches
/// every entry.
pub open spec fn chain_ok(s: Seq<EntryModel>) -> bool {
    forall|j: int, d: int|
        0 <= j < 256 && s[j].state == SlotState::Occupied && 0 <= d < dist(home(s[j].key), j)
            ==> #[trigger] s[probe(home(s[j].key), d)].state != SlotState::Empty
}

/// No key is held twice.
pub open spec fn keys_distinct(s: Seq<EntryModel>) -> bool {
    forall|i: int, j: int|
        0 <= i < 256 && 0 <= j < 256 && i != j && s[i].state == SlotState::Occupied && s[j].state
            == SlotState::Occupied ==> #[trigger] s[i].key != #[trigger] s[j].key
}

/// How many of the slots hold an entry.
pub open spec fn occ_count(s: Seq<EntryModel>) -> nat
    decreases s.len(),
{
    if s.len() == 0 {
        0
    } else {
        occ_count(s.drop_last()) + if s.last().state == SlotState::Occupied {
            1nat
        } else {
            0nat
        }
    }
}

/// The table's size, and bounded keys and values.
pub open spec fn slots_sized(s: Seq<EntryModel>) -> bool {
    &&& s.len() == MAX_ENTRIES
    &&& forall|i: int| 0 <= i < 256 ==> (#[trigger] s[i]).key.len() <= MAX_KEY_LEN && s[i].val.len() <= MAX_VAL_LEN
}

/// The table's shape as puts of keys of at most `MAX_KEY_LEN` bytes and deletes keep it:
/// reachable and distinct entries, and bounded keys and values.
pub open spec fn slots_ok(s: Seq<EntryModel>) -> bool {
    &&& slots_sized(s)
    &&& chain_ok(s)
    &&& keys_distinct(s)
}

/// What a `GET` of `key` answers: the value in the slot where probing finds it.
pub open spec fn get_val(s: Seq<EntryModel>, key: Seq<u8>) -> Option<Seq<u8>> {
    match find_key(s, key) {
        Some(i) => Some(s[i].val),
        None => None,
    }
}

/// The value stored under `key`, if any.
pub open spec fn lookup(s: Seq<EntryModel>, key: Seq<u8>) -> Option<Seq<u8>> {
    if exists|j: int| 0 <= j < 256 && holds(s[j], key) {
        Some(s[choose|j: int| 0 <= j < 256 && holds(s[j], key)].val)
    } else {
        None
    }
}

/// Stepping around the ring: distances and probes undo each other.
pub proof fn lemma_ring(h: int, j: int, d: int)
    requires
        0 <= h < 256,
        0 <= j < 256,
        0 <= d < 256,
    ensures
        0 <= dist(h, j) < 256,
        probe(h, dist(h, j)) == j,
        0 <= probe(h, d) < 256,
        dist(h, probe(h, d)) == d,
        probe(h, d) == j <==> d == dist(h, j),
{
}

impl KvStore {
    /// The slots as the specification sees them.
    pub open spec fn slots(&self) -> Seq<EntryModel> {
        self.entries@.map_values(|e: Entry| e@)
    }

    pub open spec fn wf(&self) -> bool {
        &&& slots_sized(self.slots())
        &&& self.count == occ_count(self.slots())
        &&& self.count <= MAX_LOAD
    }

    /// An empty store.
    pub fn new() -> (st: KvStore)
        ensures
            st.wf(),
            slots_ok(st.slots()),
            forall|key: Seq<u8>| lookup(st.slots(), key) is None,
    {
        let mut entries: Vec<Entry> = Vec::new();
        let mut i: usize = 0;
        while i < MAX_ENTRIES
            invariant
                i <= MAX_ENTRIES,
                entries@.len() == i,
                forall|k: int| 0 <= k < i ==> (#[trigger] entries@[k])@ == (EntryModel {
                    state: SlotState::Empty,
                    key: Seq::empty(),
                    val: Seq::empty(),
                }),
                occ_count(entries@.map_values(|e: Entry| e@)) == 0,
            decreases MAX_ENTRIES - i,
        {
            let ghost before = entries@;
            entries.push(Entry { state: SlotState::Empty, key: Vec::new(), val: Vec::new() });
            assert(entries@.map_values(|e: Entry| e@).drop_last() =~= before.map_values(|e: Entry| e@));
            i += 1;
        }
        KvStore { entries, count: 0 }
    }
}

/// Probing finds exactly the slot that holds the key, and finds nothing when no slot does.
pub proof fn lemma_find_from(s: Seq<EntryModel>, key: Seq<u8>, p: int)
    requires
        slots_ok(s),
        0 <= p <= 256,
        forall|d: int| 0 <= d < p ==> !holds(#[trigger] s[probe(home(key), d)], key),
    ensures
        match find_from(s, key, p) {
            Some(i) => 0 <= i < 256 && holds(s[i], key),
            None => forall|j: int| 0 <= j < 256 ==> !holds(#[trigger] s[j], key),
        },
    decreases 256 - p,
{
    let h = home(key);
    if p == 256 {
        assert forall|j: int| 0 <= j < 256 implies !holds(#[trigger] s[j], key) by {
            lemma_ring(h, j, 0);
            let dj = dist(h, j);
            assert(!holds(s[probe(h, dj)], key));
        }
    } else {
        let i = probe(h, p);
        lemma_ring(h, 0, p);
        match s[i].state {
            SlotState::Empty => {
                assert forall|j: int| 0 <= j < 256 implies !holds(#[trigger] s[j], key) by {
                    lemma_ring(h, j, p);
                    let dj = dist(h, j);
                    if holds(s[j], key) {
                        if dj < p {
                            assert(!holds(s[probe(h, dj)], key));
                        } else if dj > p {
                            assert(s[probe(home(s[j].key), p)].state != SlotState::Empty);
                        }
                    }
                }
            },
            _ => {
                if !(s[i].state == SlotState::Occupied && s[i].key == key) {
                    assert forall|d: int| 0 <= d < p + 1 implies !holds(#[trigger] s[probe(h, d)], key) by {
                        if d == p {
                            assert(probe(h, d) == i);
                        }
                    }
                    lemma_find_from(s, key, p + 1);
                }
            },
        }
    }
}

/// What `find_key` answers, in terms of the slots.
pub proof fn lemma_find(s: Seq<EntryModel>, key: Seq<u8>)
    requires
        slots_ok(s),
    ensures
        match find_key(s, key) {
            Some(i) => 0 <= i < 256 && holds(s[i], key) && lookup(s, key) == Some(s[i].val),
            None => (forall|j: int| 0 <= j < 256 ==> !holds(#[trigger] s[j], key)) && lookup(s, key) is None,
        },
{
    lemma_find_from(s, key, 0);
    match find_key(s, key) {
        Some(i) => {
            let c = choose|j: int| 0 <= j < 256 && holds(s[j], key);
            assert(c == i);
        },
        None => {},
    }
}

/// Finds the slot that holds `key`.
pub fn kv_find(store: &KvStore, key: &[u8]) -> (res: Option<usize>)
    requires
        store.wf(),
    ensures
        match res {
            Some(i) => find_key(store.slots(), key@) == Some(i as int),
            None => find_key(store.slots(), key@) is None,
        },
{
    let ghost s = store.slots();
    let h = (fnv1a_hash(key) % 256) as usize;
    let mut idx = h;
    let mut probes: usize = 0;
    while probes < MAX_ENTRIES
        invariant
            store.wf(),
            s == store.slots(),
            probes <= MAX_ENTRIES,
            h == home(key@),
            idx == probe(h as int, probes as int),
            find_key(s, key@) == find_from(s, key@, probes as int),
        decreases MAX_ENTRIES - probes,
    {
        let e = &store.entries[idx];
        assert(s[idx as int] == e@);
        match e.state {
            SlotState::Empty => {
                return None;
            },
            SlotState::Occupied => {
                if bytes_eq(e.key.as_slice(), key) {
                    return Some(idx);
                }
            },
            SlotState::Tombstone => {},
        }
        idx = (idx + 1) % MAX_ENTRIES;
        probes += 1;
    }
    None
}

/// The part of a value that is kept.
pub open spec fn clip(v: Seq<u8>) -> Seq<u8> {
    v.take(min(v.len() as int, MAX_VAL_LEN as int))
}

/// The part of a key that is kept.
pub open spec fn clip_key(k: Seq<u8>) -> Seq<u8> {
    k.take(min(k.len() as int, MAX_KEY_LEN as int))
}

/// The slots after `key` is stored with `val`: the value of its slot replaced when the key is
/// there, else the key (its first `MAX_KEY_LEN` bytes) and value in the first slot without an
/// entry along the probe path of the whole key.
pub open spec fn put_slots(s: Seq<EntryModel>, key: Seq<u8>, val: Seq<u8>) -> Seq<EntryModel> {
    match find_key(s, key) {
        Some(i) => s.update(i, EntryModel { val: clip(val), ..s[i] }),
        None => match free_from(s, home(key), 0) {
            Some(j) => s.update(j, EntryModel { state: SlotState::Occupied, key: clip_key(key), val: clip(val) }),
            None => s,
        },
    }
}

/// The slots after `key` is deleted: its slot becomes a tombstone.
pub open spec fn del_slots(s: Seq<EntryModel>, key: Seq<u8>) -> Seq<EntryModel> {
    match find_key(s, key) {
        Some(i) => s.update(i, EntryModel { state: SlotState::Tombstone, ..s[i] }),
        None => s,
    }
}

/// Replacing one slot changes the count by what leaves and what comes.
pub proof fn lemma_occ_count_update(s: Seq<EntryModel>, i: int, e: EntryModel)
    requires
        0 <= i < s.len(),
    ensures
        occ_count(s.update(i, e)) + (if s[i].state == SlotState::Occupied { 1int } else { 0int })
            == occ_count(s) + (if e.state == SlotState::Occupied { 1int } else { 0int }),
    decreases s.len(),
{
    let t = s.update(i, e);
    if i == s.len() - 1 {
        assert(t.drop_last() =~= s.drop_last());
    } else {
        assert(t.drop_last() =~= s.drop_last().update(i, e));
        lemma_occ_count_update(s.drop_last(), i, e);
    }
}

/// When every slot holds an entry, the count is the number of slots.
pub proof fn lemma_occ_count_full(s: Seq<EntryModel>)
    requires
        forall|i: int| 0 <= i < s.len() ==> (#[trigger] s[i]).state == SlotState::Occupied,
    ensures
        occ_count(s) == s.len(),
    decreases s.len(),
{
    if s.len() > 0 {
        lemma_occ_count_full(s.drop_last());
    }
}

/// Probing from `h` for a slot without an entry finds one when there is one, and every slot
/// it passes holds an entry.
pub proof fn lemma_free_from(s: Seq<EntryModel>, h: int, p: int)
    requires
        s.len() == 256,
        0 <= h < 256,
        0 <= p <= 256,
        forall|d: int| 0 <= d < p ==> (#[trigger] s[probe(h, d)]).state == SlotState::Occupied,
        exists|j: int| 0 <= j < 256 && s[j].state != SlotState::Occupied,
    ensures
        match free_from(s, h, p) {
            Some(j) => 0 <= j < 256 && s[j].state != SlotState::Occupied && forall|d: int|
                0 <= d < dist(h, j) ==> (#[trigger] s[probe(h, d)]).state == SlotState::Occupied,
            None => false,
        },
    decreases 256 - p,
{
    if p == 256 {
        let j = choose|j: int| 0 <= j < 256 && s[j].state != SlotState::Occupied;
        lemma_ring(h, j, 0);
        assert(s[probe(h, dist(h, j))].state == SlotState::Occupied);
    } else {
        lemma_ring(h, 0, p);
        if s[probe(h, p)].state != SlotState::Occupied {
            let j = probe(h, p);
            lemma_ring(h, j, p);
        } else {
            assert forall|d: int| 0 <= d < p + 1 implies (#[trigger] s[probe(h, d)]).state == SlotState::Occupied by {}
            lemma_free_from(s, h, p + 1);
        }
    }
}

/// The shape survives a change that adds no empty slot and no entry, and keeps each
/// remaining entry's key.
pub proof fn lemma_same_shape(s: Seq<EntryModel>, t: Seq<EntryModel>)
    requires
        slots_ok(s),
        t.len() == 256,
        forall|k: int| 0 <= k < 256 && (#[trigger] t[k]).state == SlotState::Occupied ==> s[k].state
            == SlotState::Occupied && t[k].key == s[k].key,
        forall|k: int| 0 <= k < 256 && (#[trigger] t[k]).state == SlotState::Empty ==> s[k].state
            == SlotState::Empty,
        forall|k: int| 0 <= k < 256 ==> (#[trigger] t[k]).key.len() <= MAX_KEY_LEN && t[k].val.len() <= MAX_VAL_LEN,
    ensures
        slots_ok(t),
{
    assert forall|j: int, d: int|
        0 <= j < 256 && t[j].state == SlotState::Occupied && 0 <= d < dist(home(t[j].key), j)
            implies #[trigger] t[probe(home(t[j].key), d)].state != SlotState::Empty by {
        lemma_ring(home(t[j].key), j, 0);
        assert(s[probe(home(s[j].key), d)].state != SlotState::Empty);
    }
    assert forall|i: int, j: int|
        0 <= i < 256 && 0 <= j < 256 && i != j && t[i].state == SlotState::Occupied && t[j].state
            == SlotState::Occupied implies #[trigger] t[i].key != #[trigger] t[j].key by {
        assert(s[i].key != s[j].key);
    }
}

/// The shape survives storing a new key in the first slot without an entry along its probe
/// path.
pub proof fn lemma_insert_shape(s: Seq<EntryModel>, key: Seq<u8>, val: Seq<u8>, j: int)
    requires
        slots_ok(s),
        key.len() <= MAX_KEY_LEN,
        val.len() <= MAX_VAL_LEN,
        0 <= j < 256,
        s[j].state != SlotState::Occupied,
        forall|d: int| 0 <= d < dist(home(key), j) ==> (#[trigger] s[probe(home(key), d)]).state == SlotState::Occupied,
        forall|k: int| 0 <= k < 256 ==> !holds(#[trigger] s[k], key),
    ensures
        slots_ok(s.update(j, EntryModel { state: SlotState::Occupied, key: key, val: val })),
{
    let e = EntryModel { state: SlotState::Occupied, key: key, val: val };
    let t = s.update(j, e);
    assert forall|k: int, d: int|
        0 <= k < 256 && t[k].state == SlotState::Occupied && 0 <= d < dist(home(t[k].key), k)
            implies #[trigger] t[probe(home(t[k].key), d)].state != SlotState::Empty by {
        let hk = home(t[k].key);
        lemma_ring(hk, k, d);
        lemma_ring(hk, j, d);
        if k == j {
            assert(s[probe(hk, d)].state == SlotState::Occupied);
        } else if probe(hk, d) != j {
            assert(s[probe(home(s[k].key), d)].state != SlotState::Empty);
        }
    }
    assert forall|a: int, b: int|
        0 <= a < 256 && 0 <= b < 256 && a != b && t[a].state == SlotState::Occupied && t[b].state
            == SlotState::Occupied implies #[trigger] t[a].key != #[trigger] t[b].key by {
        if a == j {
            assert(!holds(s[b], key));
        } else if b == j {
            assert(!holds(s[a], key));
        } else {
            assert(s[a].key != s[b].key);
        }
    }
}

/// The value under a key is the one in the slot that holds it.
pub proof fn lemma_lookup_at(s: Seq<EntryModel>, key: Seq<u8>, i: int)
    requires
        slots_ok(s),
        0 <= i < 256,
        holds(s[i], key),
    ensures
        lookup(s, key) == Some(s[i].val),
{
    let c = choose|j: int| 0 <= j < 256 && holds(s[j], key);
    assert(c == i);
}

/// The first slot without an entry along the probe path from `h`.
fn find_free(store: &KvStore, h: usize) -> (res: usize)
    requires
        store.wf(),
        h < MAX_ENTRIES,
        free_from(store.slots(), h as int, 0) is Some,
    ensures
        free_from(store.slots(), h as int, 0) == Some(res as int),
{
    let ghost s = store.slots();
    let mut idx = h;
    let mut probes: usize = 0;
    while probes < MAX_ENTRIES
        invariant
            store.wf(),
            s == store.slots(),
            probes <= MAX_ENTRIES,
            h < MAX_ENTRIES,
            idx == probe(h as int, probes as int),
            free_from(s, h as int, 0) == free_from(s, h as int, probes as int),
            free_from(s, h as int, 0) is Some,
        decreases MAX_ENTRIES - probes,
    {
        assert(s[idx as int] == store.entries@[idx as int]@);
        if store.entries[idx].state != SlotState::Occupied {
            return idx;
        }
        idx = (idx + 1) % MAX_ENTRIES;
        probes += 1;
    }
    idx
}

/// Probing answers with a slot of the table that holds the key.
pub proof fn lemma_find_some(s: Seq<EntryModel>, key: Seq<u8>, p: int)
    requires
        s.len() == 256,
        0 <= p,
    ensures
        find_from(s, key, p) matches Some(i) ==> 0 <= i < 256 && holds(s[i], key),
    decreases 256 - p,
{
    if 0 <= p < 256 {
        lemma_ring(home(key), 0, p);
        lemma_find_some(s, key, p + 1);
    }
}

/// Stores `val` (its first `MAX_VAL_LEN` bytes) under `key`: the whole key is hashed and
/// compared, and a new entry keeps its first `MAX_KEY_LEN` bytes.  False, with nothing
/// changed, when the store already holds `MAX_LOAD` entries.
pub fn kv_put(store: &mut KvStore, key: &[u8], val: &[u8]) -> (res: bool)
    requires
        old(store).wf(),
    ensures
        final(store).wf(),
        res == (old(store).count < MAX_LOAD),
        res ==> final(store).slots() == put_slots(old(store).slots(), key@, val@),
        !res ==> final(store).slots() == old(store).slots(),
        slots_ok(old(store).slots()) && key@.len() <= MAX_KEY_LEN ==> slots_ok(final(store).slots()),
{
    let ghost s = store.slots();
    if store.count >= MAX_LOAD {
        return false;
    }
    let vlen = if val.len() > MAX_VAL_LEN {
        MAX_VAL_LEN
    } else {
        val.len()
    };
    let mut kept: Vec<u8> = Vec::new();
    extend(&mut kept, &val[0..vlen]);
    assert(kept@ =~= clip(val@));
    proof {
        lemma_find_some(s, key@, 0);
        if slots_ok(s) {
            lemma_find(s, key@);
        }
    }
    match kv_find(store, key) {
        Some(i) => {
            store.entries[i].val = kept;
            proof {
                let t = s.update(i as int, EntryModel { val: clip(val@), ..s[i as int] });
                assert(store.slots() =~= t);
                lemma_occ_count_update(s, i as int, t[i as int]);
                if slots_ok(s) {
                    lemma_same_shape(s, t);
                }
            }
            true
        },
        None => {
            let h = (fnv1a_hash(key) % 256) as usize;
            proof {
                if forall|k: int| 0 <= k < 256 ==> (#[trigger] s[k]).state == SlotState::Occupied {
                    lemma_occ_count_full(s);
                }
                lemma_free_from(s, h as int, 0);
            }
            let idx = find_free(store, h);
            let klen = if key.len() > MAX_KEY_LEN {
                MAX_KEY_LEN
            } else {
                key.len()
            };
            let mut k: Vec<u8> = Vec::new();
            extend(&mut k, &key[0..klen]);
            assert(k@ =~= clip_key(key@));
            let ghost e = EntryModel { state: SlotState::Occupied, key: clip_key(key@), val: clip(val@) };
            assert(s[idx as int] == store.entries@[idx as int]@);
            store.entries.set(idx, Entry { state: SlotState::Occupied, key: k, val: kept });
            store.count = store.count + 1;
            proof {
                let t = s.update(idx as int, e);
                assert(store.slots() =~= t);
                lemma_occ_count_update(s, idx as int, e);
                if slots_ok(s) && key@.len() <= MAX_KEY_LEN {
                    assert(clip_key(key@) =~= key@);
                    lemma_insert_shape(s, key@, clip(val@), idx as int);
                }
            }
            true
        },
    }
}

/// Deletes the entry under `key`; false, with nothing changed, when there is none.
pub fn kv_delete(store: &mut KvStore, key: &[u8]) -> (res: bool)
    requires
        old(store).wf(),
    ensures
        final(store).wf(),
        res == (find_key(old(store).slots(), key@) is Some),
        final(store).slots() == del_slots(old(store).slots(), key@),
        slots_ok(old(store).slots()) ==> slots_ok(final(store).slots()),
{
    let ghost s = store.slots();
    proof {
        lemma_find_some(s, key@, 0);
    }
    match kv_find(store, key) {
        Some(i) => {
            let ghost t = s.update(i as int, EntryModel { state: SlotState::Tombstone, ..s[i as int] });
            proof {
                lemma_occ_count_update(s, i as int, t[i as int]);
            }
            store.entries[i].state = SlotState::Tombstone;
            store.count = store.count - 1;
            proof {
                assert(store.slots() =~= t);
                if slots_ok(s) {
                    lemma_same_shape(s, t);
                }
            }
            true
        },
        None => false,
    }
}

/// Two tables that hold `key` in the same slots, with the same values, give the same value
/// for it.
pub proof fn lemma_lookup_same(s: Seq<EntryModel>, t: Seq<EntryModel>, key: Seq<u8>)
    requires
        slots_ok(s),
        slots_ok(t),
        forall|j: int| 0 <= j < 256 ==> (holds(#[trigger] t[j], key) <==> holds(s[j], key)),
        forall|j: int| 0 <= j < 256 && holds(#[trigger] s[j], key) ==> t[j].val == s[j].val,
    ensures
        lookup(t, key) == lookup(s, key),
{
    if exists|j: int| 0 <= j < 256 && holds(s[j], key) {
        let j = choose|j: int| 0 <= j < 256 && holds(s[j], key);
        lemma_lookup_at(s, key, j);
        lemma_lookup_at(t, key, j);
    }
}

/// In a table in shape, what a `GET` answers is the value the table holds under the key.
pub proof fn lemma_get_is_lookup(s: Seq<EntryModel>, key: Seq<u8>)
    requires
        slots_ok(s),
    ensures
        get_val(s, key) == lookup(s, key),
{
    lemma_find(s, key);
}

/// What is stored can be read back: after a put the key gives the value (its first
/// `MAX_VAL_LEN` bytes), and every other key gives what it gave before.
pub proof fn law_get_after_put(s: Seq<EntryModel>, key: Seq<u8>, val: Seq<u8>)
    requires
        slots_ok(s),
        key.len() <= MAX_KEY_LEN,
        occ_count(s) < MAX_ENTRIES,
    ensures
        slots_ok(put_slots(s, key, val)),
        lookup(put_slots(s, key, val), key) == Some(clip(val)),
        forall|other: Seq<u8>| other != key ==> lookup(put_slots(s, key, val), other) == lookup(s, other),
{
    let t = put_slots(s, key, val);
    lemma_find(s, key);
    match find_key(s, key) {
        Some(i) => {
            lemma_same_shape(s, t);
            lemma_lookup_at(t, key, i);
        },
        None => {
            if forall|k: int| 0 <= k < 256 ==> (#[trigger] s[k]).state == SlotState::Occupied {
                lemma_occ_count_full(s);
            }
            lemma_free_from(s, home(key), 0);
            let j = free_from(s, home(key), 0)->0;
            assert(clip_key(key) =~= key);
            lemma_insert_shape(s, key, clip(val), j);
            lemma_lookup_at(t, key, j);
        },
    }
    assert forall|other: Seq<u8>| other != key implies lookup(t, other) == lookup(s, other) by {
        lemma_lookup_same(s, t, other);
    }
}

/// After a delete the key gives nothing, and every other key gives what it gave before.
pub proof fn law_get_after_delete(s: Seq<EntryModel>, key: Seq<u8>)
    requires
        slots_ok(s),
    ensures
        slots_ok(del_slots(s, key)),
        lookup(del_slots(s, key), key) is None,
        forall|other: Seq<u8>| other != key ==> lookup(del_slots(s, key), other) == lookup(s, other),
{
    let t = del_slots(s, key);
    lemma_find(s, key);
    match find_key(s, key) {
        Some(i) => {
            lemma_same_shape(s, t);
            assert forall|j: int| 0 <= j < 256 implies !holds(#[trigger] t[j], key) by {
                if j != i {
                    assert(s[j].key != s[i].key || s[j].state != SlotState::Occupied);
                }
            }
        },
        None => {},
    }
    assert forall|other: Seq<u8>| other != key implies lookup(t, other) == lookup(s, other) by {
        lemma_lookup_same(s, t, other);
    }
}

/// The methods that take a key.
#[derive(PartialEq, Eq, Structural, Clone, Copy)]
pub enum KvMethod {
    Get,
    Put,
    Delete,
}

/// What a request asks for, as the specification reads it.
pub enum KvRequest {
    /// No blank line ends the headers.
    BadRequest,
    /// `GET /stats`.
    Stats,
    /// A `/key/` path whose key is empty or longer than `MAX_KEY_LEN`.
    BadKey(KvMethod),
    /// `GET /key/<key>`.
    Get(Seq<u8>),
    /// `PUT /key/<key>`: the key, the body bytes that came with the headers (at most
    /// `MAX_VAL_LEN`), and how many body bytes to wait for.
    Put(Seq<u8>, Seq<u8>, nat),
    /// `DELETE /key/<key>`.
    Delete(Seq<u8>),
    /// Anything else.
    NotFound,
}

/// A key that the store takes.
pub open spec fn key_ok(key: Seq<u8>) -> bool {
    0 < key.len() <= MAX_KEY_LEN
}

/// How the server reads a request.
pub open spec fn kv_request_of(req: Seq<u8>) -> KvRequest {
    match header_end_of(req) {
        None => KvRequest::BadRequest,
        Some(he) => {
            let (me, ps, pe) = request_line_parts(req, req.len() as int);
            let method = req.take(me);
            let path = req.subrange(ps, pe);
            let key = path.skip(lit("/key/").len() as int);
            let keyed = pe <= req.len() && has_prefix(path, lit("/key/"));
            if method == lit("GET") && pe <= req.len() && path == lit("/stats") {
                KvRequest::Stats
            } else if method == lit("GET") && keyed {
                if key_ok(key) {
                    KvRequest::Get(key)
                } else {
                    KvRequest::BadKey(KvMethod::Get)
                }
            } else if method == lit("PUT") && keyed {
                if key_ok(key) {
                    KvRequest::Put(
                        key,
                        req.subrange(he, he + min(req.len() - he, MAX_VAL_LEN as int)),
                        min(content_length_of(req, he) as int, MAX_VAL_LEN as int) as nat,
                    )
                } else {
                    KvRequest::BadKey(KvMethod::Put)
                }
            } else if method == lit("DELETE") && keyed {
                if key_ok(key) {
                    KvRequest::Delete(key)
                } else {
                    KvRequest::BadKey(KvMethod::Delete)
                }
            } else {
                KvRequest::NotFound
            }
        },
    }
}

/// A request as the server follows it; `Put` carries the key, where the body bytes lie in
/// the request, how many there are, and how many the body should have.
pub enum KvRoute {
    BadRequest,
    Stats,
    BadKey(KvMethod),
    Get(Vec<u8>),
    Put(Vec<u8>, usize, usize, usize),
    Delete(Vec<u8>),
    NotFound,
}

/// The keys a route carries are ones the store takes.
pub open spec fn route_ok(route: KvRoute) -> bool {
    match route {
        KvRoute::Get(k) => key_ok(k@),
        KvRoute::Put(k, _, _, want) => key_ok(k@) && want <= MAX_VAL_LEN,
        KvRoute::Delete(k) => key_ok(k@),
        _ => true,
    }
}

/// The key of a keyed path, copied out when the store takes it.
fn key_of(req: &[u8], ps: usize, pe: usize, m: KvMethod) -> (res: Result<Vec<u8>, KvRoute>)
    requires
        ps <= pe <= req@.len(),
        has_prefix(req@.subrange(ps as int, pe as int), lit("/key/")),
    ensures
        match res {
            Ok(k) => k@ == req@.subrange(ps as int, pe as int).skip(lit("/key/").len() as int) && key_ok(k@),
            Err(r) => r == KvRoute::BadKey(m) && !key_ok(req@.subrange(ps as int, pe as int).skip(lit("/key/").len() as int)),
        },
{
    let n = "/key/".as_bytes().len();
    let ks = ps + n;
    let klen = pe - ks;
    assert(req@.subrange(ks as int, pe as int) =~= req@.subrange(ps as int, pe as int).skip(n as int));
    if klen == 0 || klen > MAX_KEY_LEN {
        return Err(KvRoute::BadKey(m));
    }
    let mut k: Vec<u8> = Vec::new();
    extend(&mut k, &req[ks..pe]);
    Ok(k)
}

/// Reads a request: the route the server takes, as `kv_request_of` describes it.
pub fn classify(req: &[u8]) -> (res: KvRoute)
    requires
        req@.len() < usize::MAX,
    ensures
        route_ok(res),
        match (res, kv_request_of(req@)) {
            (KvRoute::BadRequest, KvRequest::BadRequest) => true,
            (KvRoute::Stats, KvRequest::Stats) => true,
            (KvRoute::BadKey(a), KvRequest::BadKey(b)) => a == b,
            (KvRoute::Get(k), KvRequest::Get(key)) => k@ == key,
            (KvRoute::Put(k, s, n, want), KvRequest::Put(key, body, w)) => k@ == key && s + n <= req@.len()
                && req@.subrange(s as int, s + n) == body && want == w && n <= MAX_VAL_LEN,
            (KvRoute::Delete(k), KvRequest::Delete(key)) => k@ == key,
            (KvRoute::NotFound, KvRequest::NotFound) => true,
            _ => false,
        },
{
    let len = req.len();
    let he = match find_header_end(req, len) {
        Some(e) => e,
        None => {
            proof {
                lemma_blank_line_from(req@, 0, 0);
            }
            return KvRoute::BadRequest;
        },
    };
    proof {
        lemma_blank_line_from(req@, 0, he - 4);
    }
    assert(header_end_of(req@) == Some(he as int));
    let (me, ps, pe) = parse_request_line(req, len);
    if method_is(req, me, "GET".as_bytes()) && pe <= len && path_eq(req, ps, pe, "/stats".as_bytes()) {
        return KvRoute::Stats;
    }
    let prefix = "/key/".as_bytes();
    let keyed = pe <= len && path_starts_with(req, ps, pe, prefix);
    proof {
        let path = req@.subrange(ps as int, pe as int);
        if pe <= len && prefix@.len() <= pe - ps {
            assert(path.take(prefix@.len() as int) =~= req@.subrange(ps as int, ps + prefix@.len()));
        }
        assert(keyed == (pe <= req@.len() && has_prefix(path, lit("/key/"))));
    }
    if method_is(req, me, "GET".as_bytes()) && keyed {
        return match key_of(req, ps, pe, KvMethod::Get) {
            Ok(k) => KvRoute::Get(k),
            Err(r) => r,
        };
    }
    if method_is(req, me, "PUT".as_bytes()) && keyed {
        return match key_of(req, ps, pe, KvMethod::Put) {
            Ok(k) => {
                let cl = parse_content_length(req, he);
                let have = if len - he > MAX_VAL_LEN {
                    MAX_VAL_LEN
                } else {
                    len - he
                };
                let want = if cl > MAX_VAL_LEN {
                    MAX_VAL_LEN
                } else {
                    cl
                };
                KvRoute::Put(k, he, have, want)
            },
            Err(r) => r,
        };
    }
    if method_is(req, me, "DELETE".as_bytes()) && keyed {
        return match key_of(req, ps, pe, KvMethod::Delete) {
            Ok(k) => KvRoute::Delete(k),
            Err(r) => r,
        };
    }
    KvRoute::NotFound
}

/// The answer to a request: the whole HTTP response, and the route and status for the log
/// (no log line for a bad request).
pub struct KvReply {
    pub response: Vec<u8>,
    pub route: Vec<u8>,
    pub status: Vec<u8>,
}

/// The body of the answer to `GET /stats`.
pub open spec fn stats_body(count: nat) -> Seq<u8> {
    lit("tiny-kv\ncount: ") + dec_digits(count) + lit("\ncapacity: ") + dec_digits(MAX_ENTRIES as nat) + lit("\n")
}

/// The route a key request is logged under when its key is refused.
pub open spec fn bad_key_route(m: KvMethod) -> Seq<u8> {
    match m {
        KvMethod::Get => lit("GET /key/"),
        KvMethod::Put => lit("PUT /key/"),
        KvMethod::Delete => lit("DELETE /key/"),
    }
}

impl KvStore {
    /// Answers a request; `val` is the body of a `PUT` as received (the bytes that came with
    /// the headers, then as many more as were read).
    pub fn respond(&mut self, route: &KvRoute, val: &[u8]) -> (res: KvReply)
        requires
            old(self).wf(),
        ensures
            final(self).wf(),
            slots_ok(old(self).slots()) && route_ok(*route) ==> slots_ok(final(self).slots()),
            match *route {
                KvRoute::BadRequest => final(self).slots() == old(self).slots() && res.response@ == lit(
                    "HTTP/1.1 400 Bad Request\r\n\r\n",
                ) && res.route@ == Seq::<u8>::empty() && res.status@ == Seq::<u8>::empty(),
                KvRoute::Stats => final(self).slots() == old(self).slots() && res.response@ == text_response(
                    lit("200 OK"),
                    stats_body(old(self).count as nat),
                ) && res.route@ == lit("GET /stats") && res.status@ == lit("200"),
                KvRoute::BadKey(m) => final(self).slots() == old(self).slots() && res.response@ == text_response(
                    lit("400 Bad Request"),
                    lit("invalid key\n"),
                ) && res.route@ == bad_key_route(m) && res.status@ == lit("400"),
                KvRoute::Get(k) => final(self).slots() == old(self).slots() && res.route@ == lit("GET /key/*")
                    && match get_val(old(self).slots(), k@) {
                    Some(v) => res.response@ == response_head(lit("200 OK"), lit("application/octet-stream"), v.len())
                        + v && res.status@ == lit("200"),
                    None => res.response@ == text_response(lit("404 Not Found"), lit("not found\n"))
                        && res.status@ == lit("404"),
                },
                KvRoute::Put(k, _, _, _) => res.route@ == lit("PUT /key/*") && if old(self).count < MAX_LOAD {
                    final(self).slots() == put_slots(old(self).slots(), k@, val@) && res.response@ == text_response(
                        lit("200 OK"),
                        lit("stored ") + k@ + lit("\n"),
                    ) && res.status@ == lit("200")
                } else {
                    final(self).slots() == old(self).slots() && res.response@ == text_response(
                        lit("507 Insufficient Storage"),
                        lit("store full\n"),
                    ) && res.status@ == lit("507")
                },
                KvRoute::Delete(k) => res.route@ == lit("DELETE /key/*") && final(self).slots() == del_slots(
                    old(self).slots(),
                    k@,
                ) && if find_key(old(self).slots(), k@) is Some {
                    res.response@ == text_response(lit("200 OK"), lit("deleted ") + k@ + lit("\n"))
                        && res.status@ == lit("200")
                } else {
                    res.response@ == text_response(lit("404 Not Found"), lit("not found\n"))
                        && res.status@ == lit("404")
                },
                KvRoute::NotFound => final(self).slots() == old(self).slots() && res.response@ == text_response(
                    lit("404 Not Found"),
                    lit("not found\n"),
                ) && res.route@ == lit("?") && res.status@ == lit("404"),
            },
    {
        let text = "text/plain".as_bytes();
        match route {
            KvRoute::BadRequest => KvReply {
                response: lit_bytes("HTTP/1.1 400 Bad Request\r\n\r\n"),
                route: Vec::new(),
                status: Vec::new(),
            },
            KvRoute::Stats => {
                let mut b = lit_bytes("tiny-kv\ncount: ");
                let d = format_u32(self.count as u32);
                extend(&mut b, d.as_slice());
                extend(&mut b, "\ncapacity: ".as_bytes());
                let d = format_u32(MAX_ENTRIES as u32);
                extend(&mut b, d.as_slice());
                extend(&mut b, "\n".as_bytes());
                KvReply {
                    response: build_response("200 OK".as_bytes(), text, b.as_slice()),
                    route: lit_bytes("GET /stats"),
                    status: lit_bytes("200"),
                }
            },
            KvRoute::BadKey(m) => {
                let r = match m {
                    KvMethod::Get => lit_bytes("GET /key/"),
                    KvMethod::Put => lit_bytes("PUT /key/"),
                    KvMethod::Delete => lit_bytes("DELETE /key/"),
                };
                KvReply {
                    response: build_response("400 Bad Request".as_bytes(), text, "invalid key\n".as_bytes()),
                    route: r,
                    status: lit_bytes("400"),
                }
            },
            KvRoute::Get(k) => {
                proof {
                    lemma_find_some(self.slots(), k@, 0);
                }
                match kv_find(self, k.as_slice()) {
                    Some(i) => {
                        assert(self.slots()[i as int] == self.entries@[i as int]@);
                        KvReply {
                            response: build_response(
                                "200 OK".as_bytes(),
                                "application/octet-stream".as_bytes(),
                                self.entries[i].val.as_slice(),
                            ),
                            route: lit_bytes("GET /key/*"),
                            status: lit_bytes("200"),
                        }
                    },
                    None => KvReply {
                        response: build_response("404 Not Found".as_bytes(), text, "not found\n".as_bytes()),
                        route: lit_bytes("GET /key/*"),
                        status: lit_bytes("404"),
                    },
                }
            },
            KvRoute::Put(k, _, _, _) => {
                if kv_put(self, k.as_slice(), val) {
                    let mut b = lit_bytes("stored ");
                    extend(&mut b, k.as_slice());
                    extend(&mut b, "\n".as_bytes());
                    KvReply {
                        response: build_response("200 OK".as_bytes(), text, b.as_slice()),
                        route: lit_bytes("PUT /key/*"),
                        status: lit_bytes("200"),
                    }
                } else {
                    KvReply {
                        response: build_response(
                            "507 Insufficient Storage".as_bytes(),
                            text,
                            "store full\n".as_bytes(),
                        ),
                        route: lit_bytes("PUT /key/*"),
                        status: lit_bytes("507"),
                    }
                }
            },
            KvRoute::Delete(k) => {
                if kv_delete(self, k.as_slice()) {
                    let mut b = lit_bytes("deleted ");
                    extend(&mut b, k.as_slice());
                    extend(&mut b, "\n".as_bytes());
                    KvReply {
                        response: build_response("200 OK".as_bytes(), text, b.as_slice()),
                        route: lit_bytes("DELETE /key/*"),
                        status: lit_bytes("200"),
                    }
                } else {
                    KvReply {
                        response: build_response("404 Not Found".as_bytes(), text, "not found\n".as_bytes()),
                        route: lit_bytes("DELETE /key/*"),
                        status: lit_bytes("404"),
                    }
                }
            },
            KvRoute::NotFound => KvReply {
                response: build_response("404 Not Found".as_bytes(), text, "not found\n".as_bytes()),
                route: lit_bytes("?"),
                status: lit_bytes("404"),
            },
        }
    }
}

} // verus!
