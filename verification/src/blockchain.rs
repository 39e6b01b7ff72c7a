//! A hash-linked chain of up to `MAX_BLOCKS` blocks served over HTTP.  Each block's hash is
//! the FNV-1a hash of its index, timestamp, data and the previous block's hash, so that
//! every block commits to the whole chain before it.

use vstd::prelude::*;
use crate::bytes::{extend, min};
use crate::hash::{fnv1a, fnv1a_from, fnv1a_update, law_fnv1a_chunks, FNV_OFFSET};
use crate::http::{lit, lit_bytes, find_header_end, header_end_of, lemma_blank_line_from, request_line_parts,
    parse_request_line, method_is, path_eq, content_length_of, parse_content_length, build_response};
use crate::numfmt::{dec_digits, format_u32, format_hex64, hex_digits_fixed};
use crate::objstore::text_response;

verus! {

/// How many blocks the chain holds.
pub const MAX_BLOCKS: usize = 64;
/// How many bytes of a block's data are kept.
pub const MAX_DATA_LEN: usize = 256;
/// How many bytes of an answer body are sent.
pub const MAX_BODY: usize = 4096;

/// One block.
pub struct Block {
    pub index: u32,
    pub timestamp: i64,
    pub data: Vec<u8>,
    pub prev_hash: u64,
    pub hash: u64,
}

/// The chain: its blocks, the genesis block first.
pub struct Chain {
    pub blocks: Vec<Block>,
}

/// The four bytes of `x`, least significant first.
pub open spec fn le_bytes32(x: u32) -> Seq<u8> {
    seq![(x & 0xff) as u8, ((x >> 8) & 0xff) as u8, ((x >> 16) & 0xff) as u8, ((x >> 24) & 0xff) as u8]
}

/// The eight bytes of `x`, least significant first.
pub open spec fn le_bytes64(x: u64) -> Seq<u8> {
    seq![
        (x & 0xff) as u8,
        ((x >> 8) & 0xff) as u8,
        ((x >> 16) & 0xff) as u8,
        ((x >> 24) & 0xff) as u8,
        ((x >> 32) & 0xff) as u8,
        ((x >> 40) & 0xff) as u8,
        ((x >> 48) & 0xff) as u8,
        ((x >> 56) & 0xff) as u8,
    ]
}

/// What a block's hash covers: its index, its timestamp (two's complement), its data and
/// the hash of the block before it, numbers least significant byte first.
pub open spec fn block_bytes(index: u32, timestamp: i64, data: Seq<u8>, prev_hash: u64) -> Seq<u8> {
    le_bytes32(index) + le_bytes64(timestamp as u64) + data + le_bytes64(prev_hash)
}

/// The hash of a block with these fields.
pub open spec fn block_hash(index: u32, timestamp: i64, data: Seq<u8>, prev_hash: u64) -> u64 {
    fnv1a(block_bytes(index, timestamp, data, prev_hash))
}

/// The hash the block's fields give.
pub open spec fn hash_of(b: Block) -> u64 {
    block_hash(b.index, b.timestamp, b.data@, b.prev_hash)
}

/// The bytes of `x`, least significant first.
fn le32(x: u32) -> (res: Vec<u8>)
    ensures
        res@ == le_bytes32(x),
{
    let mut v: Vec<u8> = Vec::new();
    v.push((x & 0xff) as u8);
    v.push(((x >> 8) & 0xff) as u8);
    v.push(((x >> 16) & 0xff) as u8);
    v.push(((x >> 24) & 0xff) as u8);
    assert(v@ =~= le_bytes32(x));
    v
}

/// The bytes of `x`, least significant first.
pub fn le64(x: u64) -> (res: Vec<u8>)
    ensures
        res@ == le_bytes64(x),
{
    let mut v: Vec<u8> = Vec::new();
    v.push((x & 0xff) as u8);
    v.push(((x >> 8) & 0xff) as u8);
    v.push(((x >> 16) & 0xff) as u8);
    v.push(((x >> 24) & 0xff) as u8);
    v.push(((x >> 32) & 0xff) as u8);
    v.push(((x >> 40) & 0xff) as u8);
    v.push(((x >> 48) & 0xff) as u8);
    v.push(((x >> 56) & 0xff) as u8);
    assert(v@ =~= le_bytes64(x));
    v
}

/// The hash of a block, from its fields.
pub fn compute_block_hash(block: &Block) -> (res: u64)
    ensures
        res == hash_of(*block),
{
    let a = le32(block.index);
    let b = le64(block.timestamp as u64);
    let d = le64(block.prev_hash);
    let h1 = fnv1a_update(FNV_OFFSET, a.as_slice());
    let h2 = fnv1a_update(h1, b.as_slice());
    let h3 = fnv1a_update(h2, block.data.as_slice());
    let h4 = fnv1a_update(h3, d.as_slice());
    proof {
        law_fnv1a_chunks(FNV_OFFSET, a@, b@);
        law_fnv1a_chunks(FNV_OFFSET, a@ + b@, block.data@);
        law_fnv1a_chunks(FNV_OFFSET, a@ + b@ + block.data@, d@);
    }
    h4
}

impl Chain {
    /// A valid chain: between one and `MAX_BLOCKS` blocks, numbered in order, each with the
    /// hash its fields give and linked to the block before it, the first linked to 0.
    pub open spec fn valid(&self) -> bool {
        &&& 1 <= self.blocks@.len() <= MAX_BLOCKS
        &&& self.blocks@[0].prev_hash == 0
        &&& forall|i: int|
            0 <= i < self.blocks@.len() ==> {
                &&& (#[trigger] self.blocks@[i]).index == i
                &&& self.blocks@[i].data@.len() <= MAX_DATA_LEN
                &&& self.blocks@[i].hash == hash_of(self.blocks@[i])
                &&& i > 0 ==> self.blocks@[i].prev_hash == self.blocks@[i - 1].hash
            }
    }

    /// The newest block.
    pub open spec fn latest(&self) -> Block {
        self.blocks@.last()
    }
}

/// The data of the genesis block: the ASCII bytes of `genesis`.
pub open spec fn genesis_data() -> Seq<u8> {
    seq![103u8, 101, 110, 101, 115, 105, 115]
}

/// A chain holding only the genesis block, stamped `now`.
pub fn chain_init(now: i64) -> (res: Chain)
    ensures
        res.valid(),
        res.blocks@.len() == 1,
        res.blocks@[0].index == 0,
        res.blocks@[0].timestamp == now,
        res.blocks@[0].data@ == genesis_data(),
        res.blocks@[0].prev_hash == 0,
{
    let data: Vec<u8> = vec![103u8, 101, 110, 101, 115, 105, 115];
    let mut genesis = Block { index: 0, timestamp: now, data, prev_hash: 0, hash: 0 };
    assert(genesis.data@ =~= genesis_data());
    genesis.hash = compute_block_hash(&genesis);
    let mut blocks: Vec<Block> = Vec::new();
    blocks.push(genesis);
    Chain { blocks }
}

/// Appends a block holding `data` (its first `MAX_DATA_LEN` bytes), stamped `now`, linked
/// to the newest block; false, with nothing changed, when the chain is full.
pub fn chain_add(chain: &mut Chain, data: &[u8], now: i64) -> (res: bool)
    requires
        old(chain).valid(),
    ensures
        final(chain).valid(),
        res == (old(chain).blocks@.len() < MAX_BLOCKS),
        !res ==> final(chain).blocks@ == old(chain).blocks@,
        res ==> {
            let n = old(chain).blocks@.len() as int;
            let b = final(chain).blocks@[n];
            &&& final(chain).blocks@.len() == n + 1
            &&& final(chain).blocks@.take(n) == old(chain).blocks@
            &&& b.index == n
            &&& b.timestamp == now
            &&& b.data@ == data@.take(min(data@.len() as int, MAX_DATA_LEN as int))
            &&& b.prev_hash == old(chain).latest().hash
        },
{
    let n = chain.blocks.len();
    if n >= MAX_BLOCKS {
        return false;
    }
    let prev_hash = chain.blocks[n - 1].hash;
    let copy_len = if data.len() > MAX_DATA_LEN {
        MAX_DATA_LEN
    } else {
        data.len()
    };
    let mut kept: Vec<u8> = Vec::new();
    extend(&mut kept, &data[0..copy_len]);
    let mut block = Block { index: n as u32, timestamp: now, data: kept, prev_hash, hash: 0 };
    block.hash = compute_block_hash(&block);
    let ghost before = chain.blocks@;
    chain.blocks.push(block);
    assert(chain.blocks@.take(n as int) =~= before);
    assert(chain.blocks@[n as int].data@ =~= data@.take(min(data@.len() as int, MAX_DATA_LEN as int)));
    assert forall|i: int| 0 <= i < chain.blocks@.len() implies {
        &&& (#[trigger] chain.blocks@[i]).index == i
        &&& chain.blocks@[i].data@.len() <= MAX_DATA_LEN
        &&& chain.blocks@[i].hash == hash_of(chain.blocks@[i])
        &&& i > 0 ==> chain.blocks@[i].prev_hash == chain.blocks@[i - 1].hash
    } by {
        if i < n {
            assert(chain.blocks@[i] == before[i]);
            if i > 0 {
                assert(chain.blocks@[i - 1] == before[i - 1]);
            }
        }
    }
    true
}

/// What a request asks for, as the specification reads it.
pub enum ChainRequest {
    /// No blank line ends the headers.
    BadRequest,
    /// `GET /`: a summary of the chain.
    Info,
    /// `GET /chain`: every block.
    Dump,
    /// `POST /block`: the body bytes that came with the headers (at most `MAX_DATA_LEN`), and
    /// how many body bytes to wait for.
    Add(Seq<u8>, nat),
    /// Anything else.
    NotFound,
}

/// How the server reads a request.
pub open spec fn chain_request_of(req: Seq<u8>) -> ChainRequest {
    match header_end_of(req) {
        None => ChainRequest::BadRequest,
        Some(he) => {
            let (me, ps, pe) = request_line_parts(req, req.len() as int);
            let method = req.take(me);
            let path = req.subrange(ps, pe);
            if method == lit("GET") && pe <= req.len() && path == lit("/") {
                ChainRequest::Info
            } else if method == lit("GET") && pe <= req.len() && path == lit("/chain") {
                ChainRequest::Dump
            } else if method == lit("POST") && pe <= req.len() && path == lit("/block") {
                ChainRequest::Add(
                    req.subrange(he, he + min(req.len() - he, MAX_DATA_LEN as int)),
                    min(content_length_of(req, he) as int, MAX_DATA_LEN as int) as nat,
                )
            } else {
                ChainRequest::NotFound
            }
        },
    }
}

/// A request as the server follows it; `Add` carries where the body bytes lie in the
/// request, how many there are, and how many the body should have.
pub enum ChainRoute {
    BadRequest,
    Info,
    Dump,
    Add(usize, usize, usize),
    NotFound,
}

/// Reads a request: the route the server takes, as `chain_request_of` describes it.
#[verifier::rlimit(40)]
pub fn classify(req: &[u8]) -> (res: ChainRoute)
    requires
        req@.len() < usize::MAX,
    ensures
        match (res, chain_request_of(req@)) {
            (ChainRoute::BadRequest, ChainRequest::BadRequest) => true,
            (ChainRoute::Info, ChainRequest::Info) => true,
            (ChainRoute::Dump, ChainRequest::Dump) => true,
            (ChainRoute::Add(s, n, want), ChainRequest::Add(body, w)) => s + n <= req@.len() && req@.subrange(
                s as int,
                s + n,
            ) == body && want == w && n <= MAX_DATA_LEN && want <= MAX_DATA_LEN,
            (ChainRoute::NotFound, ChainRequest::NotFound) => true,
            _ => false,
        },
{
    let len = req.len();
    let he = match find_header_end(req, len) {
        Some(e) => e,
        None => {
            proof {
                lemma_blank_line_from(req@, 0, 0);
            }
            return ChainRoute::BadRequest;
        },
    };
    proof {
        lemma_blank_line_from(req@, 0, he - 4);
    }
    assert(header_end_of(req@) == Some(he as int));
    let (me, ps, pe) = parse_request_line(req, len);
    if method_is(req, me, "GET".as_bytes()) && pe <= len && path_eq(req, ps, pe, "/".as_bytes()) {
        return ChainRoute::Info;
    }
    if method_is(req, me, "GET".as_bytes()) && pe <= len && path_eq(req, ps, pe, "/chain".as_bytes()) {
        return ChainRoute::Dump;
    }
    if method_is(req, me, "POST".as_bytes()) && pe <= len && path_eq(req, ps, pe, "/block".as_bytes()) {
        let cl = parse_content_length(req, he);
        let have = if len - he > MAX_DATA_LEN {
            MAX_DATA_LEN
        } else {
            len - he
        };
        let want = if cl > MAX_DATA_LEN {
            MAX_DATA_LEN
        } else {
            cl
        };
        return ChainRoute::Add(he, have, want);
    }
    ChainRoute::NotFound
}

/// The answer to a request: the whole HTTP response, and the route and status for the log
/// (no log line for a bad request).
pub struct ChainReply {
    pub response: Vec<u8>,
    pub route: Vec<u8>,
    pub status: Vec<u8>,
}

/// At most the first `MAX_BODY` bytes of `s`.
pub open spec fn body_cap(s: Seq<u8>) -> Seq<u8> {
    s.take(min(s.len() as int, MAX_BODY as int))
}

/// The body of the answer to `GET /`.
pub open spec fn info_body(c: Chain) -> Seq<u8> {
    lit("tiny-blockchain\nblocks: ") + dec_digits(c.blocks@.len()) + lit("\nlatest: ") + hex_digits_fixed(
        c.latest().hash as nat,
        16,
    ) + lit("\n")
}

/// The line that describes a block.
pub open spec fn block_line(b: Block) -> Seq<u8> {
    lit("[") + dec_digits(b.index as nat) + lit("] ") + hex_digits_fixed(b.hash as nat, 16) + lit(" prev=")
        + hex_digits_fixed(b.prev_hash as nat, 16) + lit(" data=") + b.data@ + lit("\n")
}

/// The lines of the first `n` blocks.
pub open spec fn block_lines(bs: Seq<Block>, n: int) -> Seq<u8>
    decreases n,
{
    if n <= 0 {
        Seq::empty()
    } else {
        block_lines(bs, n - 1) + block_line(bs[n - 1])
    }
}

/// The body of the answer to a block that was added.
pub open spec fn added_body(b: Block) -> Seq<u8> {
    lit("added block ") + dec_digits(b.index as nat) + lit("\nhash=") + hex_digits_fixed(b.hash as nat, 16) + lit(
        "\n",
    )
}

/// Appends the line that describes `b`.
fn push_block_line(out: &mut Vec<u8>, b: &Block)
    ensures
        final(out)@ == old(out)@ + block_line(*b),
{
    extend(out, "[".as_bytes());
    let d = format_u32(b.index);
    extend(out, d.as_slice());
    extend(out, "] ".as_bytes());
    let h = format_hex64(b.hash);
    extend(out, h.as_slice());
    extend(out, " prev=".as_bytes());
    let h = format_hex64(b.prev_hash);
    extend(out, h.as_slice());
    extend(out, " data=".as_bytes());
    extend(out, b.data.as_slice());
    extend(out, "\n".as_bytes());
}

impl Chain {
    /// Answers a request; `body` is the body of a `POST /block` as received (the bytes that
    /// came with the headers, then as many more as were read), and `now` the time to stamp a
    /// new block with.
    pub fn respond(&mut self, route: &ChainRoute, body: &[u8], now: i64) -> (res: ChainReply)
        requires
            old(self).valid(),
        ensures
            final(self).valid(),
            match *route {
                ChainRoute::BadRequest => final(self).blocks@ == old(self).blocks@ && res.response@ == lit(
                    "HTTP/1.1 400 Bad Request\r\n\r\n",
                ) && res.route@ == Seq::<u8>::empty() && res.status@ == Seq::<u8>::empty(),
                ChainRoute::Info => final(self).blocks@ == old(self).blocks@ && res.response@ == text_response(
                    lit("200 OK"),
                    info_body(*old(self)),
                ) && res.route@ == lit("GET /") && res.status@ == lit("200"),
                ChainRoute::Dump => final(self).blocks@ == old(self).blocks@ && res.response@ == text_response(
                    lit("200 OK"),
                    body_cap(block_lines(old(self).blocks@, old(self).blocks@.len() as int)),
                ) && res.route@ == lit("GET /chain") && res.status@ == lit("200"),
                ChainRoute::Add(_, _, _) => res.route@ == lit("POST /block") && if old(self).blocks@.len()
                    < MAX_BLOCKS {
                    &&& final(self).blocks@.len() == old(self).blocks@.len() + 1
                    &&& final(self).blocks@.take(old(self).blocks@.len() as int) == old(self).blocks@
                    &&& final(self).latest().timestamp == now
                    &&& final(self).latest().data@ == body@.take(min(body@.len() as int, MAX_DATA_LEN as int))
                    &&& res.response@ == text_response(lit("200 OK"), added_body(final(self).latest()))
                    &&& res.status@ == lit("200")
                } else {
                    &&& final(self).blocks@ == old(self).blocks@
                    &&& res.response@ == text_response(lit("507 Insufficient Storage"), lit("chain full\n"))
                    &&& res.status@ == lit("507")
                },
                ChainRoute::NotFound => final(self).blocks@ == old(self).blocks@ && res.response@ == text_response(
                    lit("404 Not Found"),
                    lit("not found\n"),
                ) && res.route@ == lit("?") && res.status@ == lit("404"),
            },
    {
        let text = "text/plain".as_bytes();
        match route {
            ChainRoute::BadRequest => ChainReply {
                response: lit_bytes("HTTP/1.1 400 Bad Request\r\n\r\n"),
                route: Vec::new(),
                status: Vec::new(),
            },
            ChainRoute::Info => {
                let n = self.blocks.len();
                let mut b = lit_bytes("tiny-blockchain\nblocks: ");
                let d = format_u32(n as u32);
                extend(&mut b, d.as_slice());
                extend(&mut b, "\nlatest: ".as_bytes());
                let h = format_hex64(self.blocks[n - 1].hash);
                extend(&mut b, h.as_slice());
                extend(&mut b, "\n".as_bytes());
                ChainReply {
                    response: build_response("200 OK".as_bytes(), text, b.as_slice()),
                    route: lit_bytes("GET /"),
                    status: lit_bytes("200"),
                }
            },
            ChainRoute::Dump => {
                let mut b: Vec<u8> = Vec::new();
                let mut i: usize = 0;
                while i < self.blocks.len()
                    invariant
                        self.valid(),
                        i <= self.blocks@.len(),
                        b@ == block_lines(self.blocks@, i as int),
                    decreases self.blocks@.len() - i,
                {
                    push_block_line(&mut b, &self.blocks[i]);
                    i += 1;
                }
                b.truncate(MAX_BODY);
                ChainReply {
                    response: build_response("200 OK".as_bytes(), text, b.as_slice()),
                    route: lit_bytes("GET /chain"),
                    status: lit_bytes("200"),
                }
            },
            ChainRoute::Add(_, _, _) => {
                if chain_add(self, body, now) {
                    let n = self.blocks.len();
                    let mut b = lit_bytes("added block ");
                    let d = format_u32(self.blocks[n - 1].index);
                    extend(&mut b, d.as_slice());
                    extend(&mut b, "\nhash=".as_bytes());
                    let h = format_hex64(self.blocks[n - 1].hash);
                    extend(&mut b, h.as_slice());
                    extend(&mut b, "\n".as_bytes());
                    ChainReply {
                        response: build_response("200 OK".as_bytes(), text, b.as_slice()),
                        route: lit_bytes("POST /block"),
                        status: lit_bytes("200"),
                    }
                } else {
                    ChainReply {
                        response: build_response(
                            "507 Insufficient Storage".as_bytes(),
                            text,
                            "chain full\n".as_bytes(),
                        ),
                        route: lit_bytes("POST /block"),
                        status: lit_bytes("507"),
                    }
                }
            },
            ChainRoute::NotFound => ChainReply {
                response: build_response("404 Not Found".as_bytes(), text, "not found\n".as_bytes()),
                route: lit_bytes("?"),
                status: lit_bytes("404"),
            },
        }
    }
}

} // verus!
