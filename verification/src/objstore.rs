//! A content-addressed object store behind a small HTTP interface: objects are keyed by
//! the FNV-1a hash of their bytes, so storing the same bytes twice keeps one copy.

use vstd::prelude::*;
use crate::bytes::{extend, slice_prefix, min, same_except, has_prefix};
use crate::hash::{fnv1a, fnv1a_hash};
use crate::http::{lit, lit_bytes, find_header_end, parse_request_line, request_line_parts, method_is, path_eq,
    path_starts_with, parse_content_length, content_length_of, response_head, build_response, header_end_of,
    lemma_blank_line_from};
use crate::numfmt::{dec_digits, format_u32, format_hex64, hex_digits_fixed, parse_hex64, hex_value,
    hex_string_value};

verus! {

/// How many objects the store holds.
pub const MAX_OBJECTS: usize = 64;
/// The largest object; a longer body is cut to this size.
pub const MAX_OBJ_SIZE: usize = 4096;

/// An object slot.
pub struct StoredObject {
    pub occupied: bool,
    pub hash_id: u64,
    pub data: Vec<u8>,
}

/// The store: `MAX_OBJECTS` slots.
pub struct ObjStore {
    pub objects: Vec<StoredObject>,
}

impl ObjStore {
    /// A full set of slots, objects within the size limit, and no two objects in use with
    /// the same id.
    pub open spec fn wf(&self) -> bool {
        &&& self.objects@.len() == MAX_OBJECTS
        &&& forall|i: int| 0 <= i < MAX_OBJECTS ==> (#[trigger] self.objects@[i]).data@.len() <= MAX_OBJ_SIZE
        &&& forall|i: int, j: int|
            0 <= i < MAX_OBJECTS && 0 <= j < MAX_OBJECTS && i != j && (#[trigger] self.objects@[i]).occupied
                && (#[trigger] self.objects@[j]).occupied ==> self.objects@[i].hash_id != self.objects@[j].hash_id
    }

    /// The first slot at or after `i` holding the object with id `id`.
    pub open spec fn find_from(&self, id: u64, i: int) -> Option<usize>
        decreases MAX_OBJECTS - i,
    {
        if i < 0 || i >= MAX_OBJECTS {
            None
        } else if self.objects@[i].occupied && self.objects@[i].hash_id == id {
            Some(i as usize)
        } else {
            self.find_from(id, i + 1)
        }
    }

    /// The first free slot at or after `i`.
    pub open spec fn free_from(&self, i: int) -> Option<usize>
        decreases MAX_OBJECTS - i,
    {
        if i < 0 || i >= MAX_OBJECTS {
            None
        } else if !self.objects@[i].occupied {
            Some(i as usize)
        } else {
            self.free_from(i + 1)
        }
    }

    /// The bytes of the object with id `id`, if the store holds it.
    pub open spec fn lookup(&self, id: u64) -> Option<Seq<u8>> {
        match self.find_from(id, 0) {
            Some(i) => Some(self.objects@[i as int].data@),
            None => None,
        }
    }

    pub proof fn lemma_find_from(&self, id: u64, i: int)
        requires
            0 <= i,
        ensures
            self.find_from(id, i) matches Some(k) ==> i <= k < MAX_OBJECTS && self.objects@[k as int].occupied
                && self.objects@[k as int].hash_id == id,
            self.find_from(id, i) is None ==> forall|k: int| i <= k < MAX_OBJECTS ==> !(self.objects@[k].occupied
                && self.objects@[k].hash_id == id),
        decreases MAX_OBJECTS - i,
    {
        if i < MAX_OBJECTS && !(self.objects@[i].occupied && self.objects@[i].hash_id == id) {
            self.lemma_find_from(id, i + 1);
        }
    }

    pub proof fn lemma_free_from(&self, i: int)
        requires
            0 <= i,
        ensures
            self.free_from(i) matches Some(k) ==> i <= k < MAX_OBJECTS && !self.objects@[k as int].occupied,
        decreases MAX_OBJECTS - i,
    {
        if i < MAX_OBJECTS && self.objects@[i].occupied {
            self.lemma_free_from(i + 1);
        }
    }

    /// An empty store.
    pub fn new() -> (s: ObjStore)
        ensures
            s.wf(),
            forall|i: int| 0 <= i < MAX_OBJECTS ==> !(#[trigger] s.objects@[i]).occupied,
    {
        let mut objects: Vec<StoredObject> = Vec::new();
        let mut i: usize = 0;
        while i < MAX_OBJECTS
            invariant
                i <= MAX_OBJECTS,
                objects@.len() == i,
                forall|k: int| 0 <= k < i ==> !(#[trigger] objects@[k]).occupied && objects@[k].data@.len() == 0,
            decreases MAX_OBJECTS - i,
        {
            objects.push(StoredObject { occupied: false, hash_id: 0, data: Vec::new() });
            i += 1;
        }
        ObjStore { objects }
    }

    /// The slot of the object with id `id`.
    pub fn obj_find(&self, id: u64) -> (res: Option<usize>)
        requires
            self.wf(),
        ensures
            res == self.find_from(id, 0),
            res matches Some(k) ==> k < MAX_OBJECTS,
    {
        proof {
            self.lemma_find_from(id, 0);
        }
        let mut i: usize = 0;
        while i < MAX_OBJECTS
            invariant
                self.wf(),
                i <= MAX_OBJECTS,
                self.find_from(id, 0) == self.find_from(id, i as int),
            decreases MAX_OBJECTS - i,
        {
            if self.objects[i].occupied && self.objects[i].hash_id == id {
                return Some(i);
            }
            i += 1;
        }
        None
    }

    /// Stores `data` (its first `MAX_OBJ_SIZE` bytes) under the hash of all of it: `(id, true)`
    /// when it is new, `(id, false)` when an object with that id is already stored (and is
    /// kept), none when the store is full.
    pub fn obj_store(&mut self, data: &[u8]) -> (res: Option<(u64, bool)>)
        requires
            old(self).wf(),
        ensures
            final(self).wf(),
            store_post(*old(self), *final(self), data@, res),
    {
        let id = fnv1a_hash(data);
        if self.obj_find(id).is_some() {
            return Some((id, false));
        }
        proof {
            self.lemma_free_from(0);
            self.lemma_find_from(id, 0);
        }
        let mut i: usize = 0;
        while i < MAX_OBJECTS
            invariant
                self.wf(),
                *self == *old(self),
                i <= MAX_OBJECTS,
                self.free_from(0) == self.free_from(i as int),
                id == fnv1a(data@),
                self.find_from(id, 0) is None,
                forall|k: int| 0 <= k < MAX_OBJECTS ==> !((#[trigger] self.objects@[k]).occupied
                    && self.objects@[k].hash_id == id),
            decreases MAX_OBJECTS - i,
        {
            if !self.objects[i].occupied {
                let keep = if data.len() > MAX_OBJ_SIZE {
                    MAX_OBJ_SIZE
                } else {
                    data.len()
                };
                let mut copy: Vec<u8> = Vec::new();
                extend(&mut copy, slice_prefix(data, keep));
                assert(copy@ =~= obj_clip(data@));
                let ghost before = *self;
                self.objects[i] = StoredObject { occupied: true, hash_id: id, data: copy };
                proof {
                    assert forall|a: int, b: int|
                        0 <= a < MAX_OBJECTS && 0 <= b < MAX_OBJECTS && a != b && (#[trigger] self.objects@[a]).occupied
                            && (#[trigger] self.objects@[b]).occupied implies self.objects@[a].hash_id
                        != self.objects@[b].hash_id by {
                        if a != i && b != i {
                            assert(self.objects@[a] == before.objects@[a]);
                            assert(self.objects@[b] == before.objects@[b]);
                        } else if a == i {
                            assert(self.objects@[b] == before.objects@[b]);
                        } else {
                            assert(self.objects@[a] == before.objects@[a]);
                        }
                    }
                    assert forall|k: int| 0 <= k < MAX_OBJECTS implies (#[trigger] self.objects@[k]).data@.len()
                        <= MAX_OBJ_SIZE by {
                        if k != i {
                            assert(self.objects@[k] == before.objects@[k]);
                        }
                    }
                }
                return Some((id, true));
            }
            i += 1;
        }
        None
    }

    /// Removes the object with id `id`; whether there was one.
    pub fn obj_delete(&mut self, id: u64) -> (res: bool)
        requires
            old(self).wf(),
        ensures
            final(self).wf(),
            delete_post(*old(self), *final(self), id, res),
    {
        proof {
            self.lemma_find_from(id, 0);
        }
        match self.obj_find(id) {
            None => false,
            Some(k) => {
                let ghost before = *self;
                self.objects[k].occupied = false;
                proof {
                    assert forall|a: int, b: int|
                        0 <= a < MAX_OBJECTS && 0 <= b < MAX_OBJECTS && a != b && (#[trigger] self.objects@[a]).occupied
                            && (#[trigger] self.objects@[b]).occupied implies self.objects@[a].hash_id
                        != self.objects@[b].hash_id by {
                        assert(self.objects@[a] == before.objects@[a]);
                        assert(self.objects@[b] == before.objects@[b]);
                    }
                    assert forall|j: int| 0 <= j < MAX_OBJECTS implies (#[trigger] self.objects@[j]).data@.len()
                        <= MAX_OBJ_SIZE by {
                        if j != k {
                            assert(self.objects@[j] == before.objects@[j]);
                        }
                    }
                }
                true
            },
        }
    }
}

/// The part of an object's bytes that is kept.
pub open spec fn obj_clip(data: Seq<u8>) -> Seq<u8> {
    data.take(min(data.len() as int, MAX_OBJ_SIZE as int))
}

/// What storing `data` does.
pub open spec fn store_post(old: ObjStore, new: ObjStore, data: Seq<u8>, res: Option<(u64, bool)>) -> bool {
    let id = fnv1a(data);
    if old.find_from(id, 0) is Some {
        new == old && res == Some((id, false))
    } else {
        match old.free_from(0) {
            None => new == old && res is None,
            Some(i) => {
                &&& same_except(old.objects@, new.objects@, i as int)
                &&& new.objects@[i as int].occupied
                &&& new.objects@[i as int].hash_id == id
                &&& new.objects@[i as int].data@ == obj_clip(data)
                &&& res == Some((id, true))
            },
        }
    }
}

/// What deleting the object with id `id` does.
pub open spec fn delete_post(old: ObjStore, new: ObjStore, id: u64, res: bool) -> bool {
    match old.find_from(id, 0) {
        None => new == old && !res,
        Some(k) => {
            &&& same_except(old.objects@, new.objects@, k as int)
            &&& !new.objects@[k as int].occupied
            &&& new.objects@[k as int].hash_id == id
            &&& new.objects@[k as int].data == old.objects@[k as int].data
            &&& res
        },
    }
}

/// Objects are addressed by their content: storing bytes that were stored before changes
/// nothing, and the answer is the same id, marked as already there.
pub proof fn law_put_twice(
    s0: ObjStore,
    s1: ObjStore,
    s2: ObjStore,
    data: Seq<u8>,
    r1: Option<(u64, bool)>,
    r2: Option<(u64, bool)>,
)
    requires
        s0.wf(),
        store_post(s0, s1, data, r1),
        r1 is Some,
        store_post(s1, s2, data, r2),
    ensures
        r1 matches Some((id, _)) && id == fnv1a(data),
        r2 == Some((fnv1a(data), false)),
        s2 == s1,
{
    let id = fnv1a(data);
    s0.lemma_free_from(0);
    if s0.find_from(id, 0) is None {
        let i = s0.free_from(0)->0 as int;
        s1.lemma_find_from(id, 0);
        assert(s1.objects@[i].occupied && s1.objects@[i].hash_id == id);
    }
}

/// What is stored can be read back under the id the store answered with: the bytes just
/// stored (their first `MAX_OBJ_SIZE`) when they were new, the bytes already stored under
/// that id otherwise.
pub proof fn law_get_after_put(old: ObjStore, new: ObjStore, data: Seq<u8>, res: Option<(u64, bool)>)
    requires
        old.wf(),
        new.wf(),
        store_post(old, new, data, res),
    ensures
        match res {
            Some((id, is_new)) => new.lookup(id) == if is_new {
                Some(obj_clip(data))
            } else {
                old.lookup(id)
            },
            None => true,
        },
{
    let id = fnv1a(data);
    old.lemma_find_from(id, 0);
    new.lemma_find_from(id, 0);
    old.lemma_free_from(0);
    if old.find_from(id, 0) is None && old.free_from(0) is Some {
        let i = old.free_from(0)->0 as int;
        match new.find_from(id, 0) {
            Some(k) => {
                if k != i {
                    assert(new.objects@[k as int] == old.objects@[k as int]);
                }
            },
            None => {
                assert(new.objects@[i].occupied && new.objects@[i].hash_id == id);
            },
        }
    }
}

/// After a delete the id is gone from the store.
pub proof fn law_get_after_delete(old: ObjStore, new: ObjStore, id: u64, res: bool)
    requires
        old.wf(),
        new.wf(),
        delete_post(old, new, id, res),
    ensures
        new.lookup(id) is None,
{
    old.lemma_find_from(id, 0);
    new.lemma_find_from(id, 0);
    if let Some(k) = new.find_from(id, 0) {
        let d = old.find_from(id, 0)->0 as int;
        if k != d {
            assert(new.objects@[k as int] == old.objects@[k as int]);
            assert(old.objects@[d].occupied && old.objects@[d].hash_id == id);
        }
    }
}

/// How many slots among the first `n` hold objects.
pub open spec fn object_count(s: ObjStore, n: int) -> nat
    decreases n,
{
    if n <= 0 {
        0
    } else {
        object_count(s, n - 1) + if s.objects@[n - 1].occupied {
            1nat
        } else {
            0nat
        }
    }
}

/// How many bytes the objects in the first `n` slots hold.
pub open spec fn byte_count(s: ObjStore, n: int) -> nat
    decreases n,
{
    if n <= 0 {
        0
    } else {
        byte_count(s, n - 1) + if s.objects@[n - 1].occupied {
            s.objects@[n - 1].data@.len()
        } else {
            0nat
        }
    }
}

proof fn lemma_counts_bound(s: ObjStore, n: int)
    requires
        s.wf(),
        0 <= n <= MAX_OBJECTS,
    ensures
        object_count(s, n) <= n,
        byte_count(s, n) <= n * MAX_OBJ_SIZE,
    decreases n,
{
    if n > 0 {
        lemma_counts_bound(s, n - 1);
        assert(s.objects@[n - 1].data@.len() <= MAX_OBJ_SIZE);
    }
}

/// An object id written in a path: exactly 16 hexadecimal digits, in either case.
pub open spec fn hex_id(s: Seq<u8>) -> Option<u64> {
    if s.len() == 16 && forall|i: int| 0 <= i < 16 ==> #[trigger] hex_value(s[i]) is Some {
        Some(hex_string_value(s) as u64)
    } else {
        None
    }
}

/// The requests the store answers.
pub enum ObjRequest {
    BadRequest,
    Stats,
    Put(Seq<u8>, nat),
    Get(Option<u64>),
    Delete(Option<u64>),
    NotFound,
}

/// What a request asks for: `GET /stats`; `PUT /obj` with the body bytes that came with
/// the header (at most `MAX_OBJ_SIZE`) and how many the body should have (its
/// `Content-Length`, at most `MAX_OBJ_SIZE`); `GET` or `DELETE` of `/obj/<id>`; anything
/// else is not found, and a request without the end of its header is bad.
pub open spec fn obj_request_of(req: Seq<u8>) -> ObjRequest {
    match header_end_of(req) {
        None => ObjRequest::BadRequest,
        Some(he) => {
            let (me, ps, pe) = request_line_parts(req, req.len() as int);
            let method = req.take(me);
            let path = req.subrange(ps, pe);
            if method == lit("GET") && pe <= req.len() && path == lit("/stats") {
                ObjRequest::Stats
            } else if method == lit("PUT") && pe <= req.len() && path == lit("/obj") {
                let have = min(req.len() - he, MAX_OBJ_SIZE as int);
                let cl = content_length_of(req, he) as int;
                ObjRequest::Put(req.subrange(he, he + have), min(cl, MAX_OBJ_SIZE as int) as nat)
            } else if method == lit("GET") && pe <= req.len() && has_prefix(path, lit("/obj/")) {
                ObjRequest::Get(hex_id(path.skip(lit("/obj/").len() as int)))
            } else if method == lit("DELETE") && pe <= req.len() && has_prefix(path, lit("/obj/")) {
                ObjRequest::Delete(hex_id(path.skip(lit("/obj/").len() as int)))
            } else {
                ObjRequest::NotFound
            }
        },
    }
}

/// A request as the server follows it; `Put` carries where the body bytes lie in the
/// request and how many the body should have.
pub enum ObjRoute {
    BadRequest,
    Stats,
    Put(usize, usize, usize),
    Get(Option<u64>),
    Delete(Option<u64>),
    NotFound,
}

/// Reads an object id from a path.
fn parse_id(s: &[u8]) -> (res: Option<u64>)
    ensures
        res == hex_id(s@),
{
    let r = parse_hex64(s);
    proof {
        if r is None && s@.len() == 16 {
            let i = choose|i: int| 0 <= i < 16 && #[trigger] hex_value(s@[i]).is_none();
            assert(!(hex_value(s@[i]) is Some));
        }
    }
    r
}

/// Picks what a request asks for.
pub fn classify(req: &[u8]) -> (res: ObjRoute)
    requires
        req@.len() < usize::MAX,
    ensures
        match (res, obj_request_of(req@)) {
            (ObjRoute::BadRequest, ObjRequest::BadRequest) => true,
            (ObjRoute::Stats, ObjRequest::Stats) => true,
            (ObjRoute::Put(s, n, want), ObjRequest::Put(body, w)) => s + n <= req@.len() && req@.subrange(
                s as int,
                s + n,
            ) == body && want == w && n <= MAX_OBJ_SIZE && want <= MAX_OBJ_SIZE,
            (ObjRoute::Get(a), ObjRequest::Get(b)) => a == b,
            (ObjRoute::Delete(a), ObjRequest::Delete(b)) => a == b,
            (ObjRoute::NotFound, ObjRequest::NotFound) => true,
            _ => false,
        },
{
    let len = req.len();
    let he = match find_header_end(req, len) {
        Some(e) => e,
        None => {
            proof {
                lemma_blank_line_from(req@, 0, 0);
            }
            return ObjRoute::BadRequest;
        },
    };
    proof {
        lemma_blank_line_from(req@, 0, he - 4);
    }
    assert(header_end_of(req@) == Some(he as int));
    let (me, ps, pe) = parse_request_line(req, len);
    if method_is(req, me, "GET".as_bytes()) && pe <= len && path_eq(req, ps, pe, "/stats".as_bytes()) {
        return ObjRoute::Stats;
    }
    if method_is(req, me, "PUT".as_bytes()) && pe <= len && path_eq(req, ps, pe, "/obj".as_bytes()) {
        let cl = parse_content_length(req, he);
        let have = if len - he > MAX_OBJ_SIZE {
            MAX_OBJ_SIZE
        } else {
            len - he
        };
        let want = if cl > MAX_OBJ_SIZE {
            MAX_OBJ_SIZE
        } else {
            cl
        };
        return ObjRoute::Put(he, have, want);
    }
    let prefix = "/obj/".as_bytes();
    if pe <= len && path_starts_with(req, ps, pe, prefix) {
        let ghost path = req@.subrange(ps as int, pe as int);
        assert(has_prefix(path, prefix@)) by {
            assert(path.take(prefix@.len() as int) =~= req@.subrange(ps as int, ps + prefix@.len()));
        }
        let id = parse_id(&req[ps + prefix.len()..pe]);
        assert(req@.subrange(ps + prefix@.len(), pe as int) =~= path.skip(prefix@.len() as int));
        if method_is(req, me, "GET".as_bytes()) {
            return ObjRoute::Get(id);
        }
        if method_is(req, me, "DELETE".as_bytes()) {
            return ObjRoute::Delete(id);
        }
    } else {
        proof {
            let path = req@.subrange(ps as int, pe as int);
            if pe <= len && has_prefix(path, lit("/obj/")) {
                assert(req@.subrange(ps as int, ps + prefix@.len()) =~= path.take(prefix@.len() as int));
            }
        }
    }
    ObjRoute::NotFound
}

/// The log line of the `count`-th request: `[#count] route -> status`.
pub fn log_request(count: u32, route: &[u8], status: &[u8]) -> (res: Vec<u8>)
    ensures
        res@ == lit("[#") + dec_digits(count as nat) + lit("] ") + route@ + lit(" -> ") + status@ + lit("\n"),
{
    let mut out = lit_bytes("[#");
    let d = format_u32(count);
    extend(&mut out, d.as_slice());
    extend(&mut out, "] ".as_bytes());
    extend(&mut out, route);
    extend(&mut out, " -> ".as_bytes());
    extend(&mut out, status);
    extend(&mut out, "\n".as_bytes());
    out
}

/// The answer to a request: the whole HTTP response, and the route and status for the log
/// (no log line for a bad request).
pub struct ObjReply {
    pub response: Vec<u8>,
    pub route: Vec<u8>,
    pub status: Vec<u8>,
}

/// The body of the answer to `GET /stats`.
pub open spec fn stats_body(s: ObjStore) -> Seq<u8> {
    lit("tiny-objstore\nobjects: ") + dec_digits(object_count(s, MAX_OBJECTS as int)) + lit("\nbytes: ") + dec_digits(
        byte_count(s, MAX_OBJECTS as int),
    ) + lit("\ncapacity: ") + dec_digits(MAX_OBJECTS as nat) + lit("\n")
}

/// A plain-text response.
pub open spec fn text_response(status: Seq<u8>, body: Seq<u8>) -> Seq<u8> {
    response_head(status, lit("text/plain"), body.len()) + body
}

/// The body that reports a stored object: new or already there, its id and its size.
pub open spec fn stored_body(id: u64, is_new: bool, size: nat) -> Seq<u8> {
    (if is_new {
        lit("stored\nid=")
    } else {
        lit("exists\nid=")
    }) + hex_digits_fixed(id as nat, 16) + lit("\nsize=") + dec_digits(size) + lit("\n")
}

impl ObjStore {
    /// The body of the answer to `GET /stats`.
    pub fn stats(&self) -> (res: Vec<u8>)
        requires
            self.wf(),
        ensures
            res@ == stats_body(*self),
    {
        let mut count: u32 = 0;
        let mut bytes: u32 = 0;
        let mut i: usize = 0;
        while i < MAX_OBJECTS
            invariant
                self.wf(),
                i <= MAX_OBJECTS,
                count == object_count(*self, i as int),
                bytes == byte_count(*self, i as int),
            decreases MAX_OBJECTS - i,
        {
            proof {
                lemma_counts_bound(*self, i + 1);
            }
            if self.objects[i].occupied {
                count += 1;
                bytes += self.objects[i].data.len() as u32;
            }
            i += 1;
        }
        let mut out = lit_bytes("tiny-objstore\nobjects: ");
        let d = format_u32(count);
        extend(&mut out, d.as_slice());
        extend(&mut out, "\nbytes: ".as_bytes());
        let d = format_u32(bytes);
        extend(&mut out, d.as_slice());
        extend(&mut out, "\ncapacity: ".as_bytes());
        let d = format_u32(MAX_OBJECTS as u32);
        extend(&mut out, d.as_slice());
        extend(&mut out, "\n".as_bytes());
        out
    }

    /// Answers a request; `body` is the body of a `PUT /obj` as received in full (the bytes
    /// that came with the header, then as many more as were read); the size reported is that
    /// of the part kept.
    pub fn respond(&mut self, route: &ObjRoute, body: &[u8]) -> (res: ObjReply)
        requires
            old(self).wf(),
        ensures
            final(self).wf(),
            match *route {
                ObjRoute::BadRequest => *final(self) == *old(self) && res.response@ == lit(
                    "HTTP/1.1 400 Bad Request\r\n\r\n",
                ),
                ObjRoute::Stats => *final(self) == *old(self) && res.response@ == text_response(
                    lit("200 OK"),
                    stats_body(*old(self)),
                ) && res.route@ == lit("GET /stats") && res.status@ == lit("200"),
                ObjRoute::Put(_, _, _) => {
                    &&& res.route@ == lit("PUT /obj")
                    &&& exists|r: Option<(u64, bool)>| #[trigger] store_post(*old(self), *final(self), body@, r) && match r {
                        Some((id, is_new)) => res.response@ == text_response(
                            lit("200 OK"),
                            stored_body(id, is_new, obj_clip(body@).len()),
                        ) && res.status@ == lit("200"),
                        None => res.response@ == text_response(lit("507 Insufficient Storage"), lit("store full\n"))
                            && res.status@ == lit("507"),
                    }
                },
                ObjRoute::Get(id) => {
                    &&& *final(self) == *old(self)
                    &&& res.route@ == lit("GET /obj/*")
                    &&& match id {
                        None => res.response@ == text_response(lit("400 Bad Request"), lit("invalid hex id\n"))
                            && res.status@ == lit("400"),
                        Some(h) => match old(self).lookup(h) {
                            Some(d) => res.response@ == response_head(
                                lit("200 OK"),
                                lit("application/octet-stream"),
                                d.len(),
                            ) + d && res.status@ == lit("200"),
                            None => res.response@ == text_response(lit("404 Not Found"), lit("not found\n"))
                                && res.status@ == lit("404"),
                        },
                    }
                },
                ObjRoute::Delete(id) => {
                    &&& res.route@ == lit("DELETE /obj/*")
                    &&& match id {
                        None => *final(self) == *old(self) && res.response@ == text_response(
                            lit("400 Bad Request"),
                            lit("invalid hex id\n"),
                        ) && res.status@ == lit("400"),
                        Some(h) => delete_post(*old(self), *final(self), h, old(self).lookup(h) is Some) && if old(
                            self,
                        ).lookup(h) is Some {
                            res.response@ == text_response(
                                lit("200 OK"),
                                lit("deleted ") + hex_digits_fixed(h as nat, 16) + lit("\n"),
                            ) && res.status@ == lit("200")
                        } else {
                            res.response@ == text_response(lit("404 Not Found"), lit("not found\n"))
                                && res.status@ == lit("404")
                        },
                    }
                },
                ObjRoute::NotFound => *final(self) == *old(self) && res.response@ == text_response(
                    lit("404 Not Found"),
                    lit("not found\n"),
                ) && res.route@ == lit("?") && res.status@ == lit("404"),
            },
    {
        let text = "text/plain".as_bytes();
        match route {
            ObjRoute::BadRequest => ObjReply {
                response: lit_bytes("HTTP/1.1 400 Bad Request\r\n\r\n"),
                route: Vec::new(),
                status: Vec::new(),
            },
            ObjRoute::Stats => {
                let b = self.stats();
                ObjReply {
                    response: build_response("200 OK".as_bytes(), text, b.as_slice()),
                    route: lit_bytes("GET /stats"),
                    status: lit_bytes("200"),
                }
            },
            ObjRoute::Put(_, _, _) => {
                let r = self.obj_store(body);
                match r {
                    Some((id, is_new)) => {
                        let mut b = if is_new {
                            lit_bytes("stored\nid=")
                        } else {
                            lit_bytes("exists\nid=")
                        };
                        let h = format_hex64(id);
                        extend(&mut b, h.as_slice());
                        extend(&mut b, "\nsize=".as_bytes());
                        let size = if body.len() > MAX_OBJ_SIZE {
                            MAX_OBJ_SIZE
                        } else {
                            body.len()
                        };
                        let d = format_u32(size as u32);
                        extend(&mut b, d.as_slice());
                        extend(&mut b, "\n".as_bytes());
                        ObjReply {
                            response: build_response("200 OK".as_bytes(), text, b.as_slice()),
                            route: lit_bytes("PUT /obj"),
                            status: lit_bytes("200"),
                        }
                    },
                    None => ObjReply {
                        response: build_response(
                            "507 Insufficient Storage".as_bytes(),
                            text,
                            "store full\n".as_bytes(),
                        ),
                        route: lit_bytes("PUT /obj"),
                        status: lit_bytes("507"),
                    },
                }
            },
            ObjRoute::Get(id) => {
                let route_name = lit_bytes("GET /obj/*");
                match id {
                    None => ObjReply {
                        response: build_response("400 Bad Request".as_bytes(), text, "invalid hex id\n".as_bytes()),
                        route: route_name,
                        status: lit_bytes("400"),
                    },
                    Some(h) => match self.obj_find(*h) {
                        Some(k) => ObjReply {
                            response: build_response(
                                "200 OK".as_bytes(),
                                "application/octet-stream".as_bytes(),
                                self.objects[k].data.as_slice(),
                            ),
                            route: route_name,
                            status: lit_bytes("200"),
                        },
                        None => ObjReply {
                            response: build_response("404 Not Found".as_bytes(), text, "not found\n".as_bytes()),
                            route: route_name,
                            status: lit_bytes("404"),
                        },
                    },
                }
            },
            ObjRoute::Delete(id) => {
                let route_name = lit_bytes("DELETE /obj/*");
                match id {
                    None => ObjReply {
                        response: build_response("400 Bad Request".as_bytes(), text, "invalid hex id\n".as_bytes()),
                        route: route_name,
                        status: lit_bytes("400"),
                    },
                    Some(h) => {
                        if self.obj_delete(*h) {
                            let mut b = lit_bytes("deleted ");
                            let hx = format_hex64(*h);
                            extend(&mut b, hx.as_slice());
                            extend(&mut b, "\n".as_bytes());
                            ObjReply {
                                response: build_response("200 OK".as_bytes(), text, b.as_slice()),
                                route: route_name,
                                status: lit_bytes("200"),
                            }
                        } else {
                            ObjReply {
                                response: build_response("404 Not Found".as_bytes(), text, "not found\n".as_bytes()),
                                route: route_name,
                                status: lit_bytes("404"),
                            }
                        }
                    },
                }
            },
            ObjRoute::NotFound => ObjReply {
                response: build_response("404 Not Found".as_bytes(), text, "not found\n".as_bytes()),
                route: lit_bytes("?"),
                status: lit_bytes("404"),
            },
        }
    }
}

} // verus!
