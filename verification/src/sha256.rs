//! SHA-256 (FIPS 180-4), fed in chunks of any size: the compression function over 64-byte
//! blocks, a hasher that keeps the bytes of an unfinished block, and the final padding.

use vstd::prelude::*;
use crate::bytes::{extend, min};
use crate::numfmt::{hex_digit, hex_char};

verus! {

/// The 64 round constants.
pub open spec fn k_spec() -> Seq<u32> {
    seq![
        0x428a2f98u32, 0x71374491, 0xb5c0fbcf, 0xe9b5dba5, 0x3956c25b, 0x59f111f1, 0x923f82a4, 0xab1c5ed5,
        0xd807aa98, 0x12835b01, 0x243185be, 0x550c7dc3, 0x72be5d74, 0x80deb1fe, 0x9bdc06a7, 0xc19bf174,
        0xe49b69c1, 0xefbe4786, 0x0fc19dc6, 0x240ca1cc, 0x2de92c6f, 0x4a7484aa, 0x5cb0a9dc, 0x76f988da,
        0x983e5152, 0xa831c66d, 0xb00327c8, 0xbf597fc7, 0xc6e00bf3, 0xd5a79147, 0x06ca6351, 0x14292967,
        0x27b70a85, 0x2e1b2138, 0x4d2c6dfc, 0x53380d13, 0x650a7354, 0x766a0abb, 0x81c2c92e, 0x92722c85,
        0xa2bfe8a1, 0xa81a664b, 0xc24b8b70, 0xc76c51a3, 0xd192e819, 0xd6990624, 0xf40e3585, 0x106aa070,
        0x19a4c116, 0x1e376c08, 0x2748774c, 0x34b0bcb5, 0x391c0cb3, 0x4ed8aa4a, 0x5b9cca4f, 0x682e6ff3,
        0x748f82ee, 0x78a5636f, 0x84c87814, 0x8cc70208, 0x90befffa, 0xa4506ceb, 0xbef9a3f7, 0xc67178f2,
    ]
}

/// The initial hash value.
pub open spec fn h_init() -> Seq<u32> {
    seq![0x6a09e667u32, 0xbb67ae85, 0x3c6ef372, 0xa54ff53a, 0x510e527f, 0x9b05688c, 0x1f83d9ab, 0x5be0cd19]
}

/// `x` rotated right by `n` bits.
pub open spec fn rotr(x: u32, n: u32) -> u32 {
    (x >> n) | (x << ((32 - n) as u32))
}

pub open spec fn big_sigma0(a: u32) -> u32 {
    rotr(a, 2) ^ rotr(a, 13) ^ rotr(a, 22)
}

pub open spec fn big_sigma1(e: u32) -> u32 {
    rotr(e, 6) ^ rotr(e, 11) ^ rotr(e, 25)
}

pub open spec fn small_sigma0(x: u32) -> u32 {
    rotr(x, 7) ^ rotr(x, 18) ^ (x >> 3)
}

pub open spec fn small_sigma1(x: u32) -> u32 {
    rotr(x, 17) ^ rotr(x, 19) ^ (x >> 10)
}

pub open spec fn choice(e: u32, f: u32, g: u32) -> u32 {
    (e & f) ^ ((!e) & g)
}

pub open spec fn majority(a: u32, b: u32, c: u32) -> u32 {
    (a & b) ^ (a & c) ^ (b & c)
}

/// The `i`-th big-endian word of a block.
pub open spec fn be_word(block: Seq<u8>, i: int) -> u32 {
    ((block[4 * i] as u32) << 24u32) | ((block[4 * i + 1] as u32) << 16u32) | ((block[4 * i + 2] as u32)
        << 8u32) | (block[4 * i + 3] as u32)
}

/// The message schedule of a block.
pub open spec fn schedule(block: Seq<u8>, i: int) -> u32
    decreases i,
{
    if i < 16 {
        be_word(block, i)
    } else {
        schedule(block, i - 16).wrapping_add(small_sigma0(schedule(block, i - 15))).wrapping_add(
            schedule(block, i - 7),
        ).wrapping_add(small_sigma1(schedule(block, i - 2)))
    }
}

/// One round on the working variables `v` (a to h) with round constant `k` and word `w`.
pub open spec fn round(v: Seq<u32>, k: u32, w: u32) -> Seq<u32> {
    let t1 = v[7].wrapping_add(big_sigma1(v[4])).wrapping_add(choice(v[4], v[5], v[6])).wrapping_add(k).wrapping_add(w);
    let t2 = big_sigma0(v[0]).wrapping_add(majority(v[0], v[1], v[2]));
    seq![t1.wrapping_add(t2), v[0], v[1], v[2], v[3].wrapping_add(t1), v[4], v[5], v[6]]
}

/// The working variables after the first `i` rounds over `block`, from `state`.
pub open spec fn rounds(state: Seq<u32>, block: Seq<u8>, i: int) -> Seq<u32>
    decreases i,
{
    if i <= 0 {
        state
    } else {
        round(rounds(state, block, i - 1), k_spec()[i - 1], schedule(block, i - 1))
    }
}

/// The compression function: the state after one 64-byte block.
pub open spec fn compress(state: Seq<u32>, block: Seq<u8>) -> Seq<u32> {
    let v = rounds(state, block, 64);
    Seq::new(8, |j: int| state[j].wrapping_add(v[j]))
}

/// `x` rotated right by `n` bits.
fn rotr_exec(x: u32, n: u32) -> (res: u32)
    requires
        0 < n < 32,
    ensures
        res == rotr(x, n),
{
    (x >> n) | (x << (32 - n))
}

/// The round constants.
fn k_table() -> (res: Vec<u32>)
    ensures
        res@ == k_spec(),
{
    let k: Vec<u32> = vec![
        0x428a2f98u32, 0x71374491, 0xb5c0fbcf, 0xe9b5dba5, 0x3956c25b, 0x59f111f1, 0x923f82a4, 0xab1c5ed5,
        0xd807aa98, 0x12835b01, 0x243185be, 0x550c7dc3, 0x72be5d74, 0x80deb1fe, 0x9bdc06a7, 0xc19bf174,
        0xe49b69c1, 0xefbe4786, 0x0fc19dc6, 0x240ca1cc, 0x2de92c6f, 0x4a7484aa, 0x5cb0a9dc, 0x76f988da,
        0x983e5152, 0xa831c66d, 0xb00327c8, 0xbf597fc7, 0xc6e00bf3, 0xd5a79147, 0x06ca6351, 0x14292967,
        0x27b70a85, 0x2e1b2138, 0x4d2c6dfc, 0x53380d13, 0x650a7354, 0x766a0abb, 0x81c2c92e, 0x92722c85,
        0xa2bfe8a1, 0xa81a664b, 0xc24b8b70, 0xc76c51a3, 0xd192e819, 0xd6990624, 0xf40e3585, 0x106aa070,
        0x19a4c116, 0x1e376c08, 0x2748774c, 0x34b0bcb5, 0x391c0cb3, 0x4ed8aa4a, 0x5b9cca4f, 0x682e6ff3,
        0x748f82ee, 0x78a5636f, 0x84c87814, 0x8cc70208, 0x90befffa, 0xa4506ceb, 0xbef9a3f7, 0xc67178f2,
    ];
    assert(k@ =~= k_spec());
    k
}

/// The message schedule of a 64-byte block.
fn message_schedule(block: &[u8]) -> (w: Vec<u32>)
    requires
        block@.len() == 64,
    ensures
        w@.len() == 64,
        forall|j: int| 0 <= j < 64 ==> w@[j] == schedule(block@, j),
{
    let mut w: Vec<u32> = Vec::new();
    let mut i: usize = 0;
    while i < 16
        invariant
            block@.len() == 64,
            i <= 16,
            w@.len() == i,
            forall|j: int| 0 <= j < i ==> w@[j] == schedule(block@, j),
        decreases 16 - i,
    {
        let word = ((block[i * 4] as u32) << 24u32) | ((block[i * 4 + 1] as u32) << 16u32) | ((block[i * 4 + 2] as u32)
            << 8u32) | (block[i * 4 + 3] as u32);
        w.push(word);
        i += 1;
    }
    while i < 64
        invariant
            block@.len() == 64,
            16 <= i <= 64,
            w@.len() == i,
            forall|j: int| 0 <= j < i ==> w@[j] == schedule(block@, j),
        decreases 64 - i,
    {
        let x = w[i - 15];
        let s0 = rotr_exec(x, 7) ^ rotr_exec(x, 18) ^ (x >> 3);
        let y = w[i - 2];
        let s1 = rotr_exec(y, 17) ^ rotr_exec(y, 19) ^ (y >> 10);
        let word = w[i - 16].wrapping_add(s0).wrapping_add(w[i - 7]).wrapping_add(s1);
        w.push(word);
        i += 1;
    }
    w
}

/// The state after compressing one 64-byte block into `state`.
pub fn compress_block(state: &Vec<u32>, block: &[u8]) -> (res: Vec<u32>)
    requires
        state@.len() == 8,
        block@.len() == 64,
    ensures
        res@ == compress(state@, block@),
{
    let w = message_schedule(block);
    let k = k_table();
    let mut a = state[0];
    let mut b = state[1];
    let mut c = state[2];
    let mut d = state[3];
    let mut e = state[4];
    let mut f = state[5];
    let mut g = state[6];
    let mut h = state[7];
    assert(seq![a, b, c, d, e, f, g, h] =~= rounds(state@, block@, 0));
    let mut i: usize = 0;
    while i < 64
        invariant
            state@.len() == 8,
            block@.len() == 64,
            i <= 64,
            w@.len() == 64,
            forall|j: int| 0 <= j < 64 ==> w@[j] == schedule(block@, j),
            k@ == k_spec(),
            seq![a, b, c, d, e, f, g, h] == rounds(state@, block@, i as int),
        decreases 64 - i,
    {
        let ghost v = seq![a, b, c, d, e, f, g, h];
        let s1 = rotr_exec(e, 6) ^ rotr_exec(e, 11) ^ rotr_exec(e, 25);
        let ch = (e & f) ^ ((!e) & g);
        let temp1 = h.wrapping_add(s1).wrapping_add(ch).wrapping_add(k[i]).wrapping_add(w[i]);
        let s0 = rotr_exec(a, 2) ^ rotr_exec(a, 13) ^ rotr_exec(a, 22);
        let maj = (a & b) ^ (a & c) ^ (b & c);
        let temp2 = s0.wrapping_add(maj);
        h = g;
        g = f;
        f = e;
        e = d.wrapping_add(temp1);
        d = c;
        c = b;
        b = a;
        a = temp1.wrapping_add(temp2);
        assert(seq![a, b, c, d, e, f, g, h] =~= round(v, k_spec()[i as int], schedule(block@, i as int)));
        i += 1;
    }
    let ghost v = seq![a, b, c, d, e, f, g, h];
    let mut out: Vec<u32> = Vec::new();
    out.push(state[0].wrapping_add(a));
    out.push(state[1].wrapping_add(b));
    out.push(state[2].wrapping_add(c));
    out.push(state[3].wrapping_add(d));
    out.push(state[4].wrapping_add(e));
    out.push(state[5].wrapping_add(f));
    out.push(state[6].wrapping_add(g));
    out.push(state[7].wrapping_add(h));
    assert(out@ =~= compress(state@, block@));
    out
}

/// The state after compressing, in order, every whole 64-byte block at the front of `m`
/// into `s` (a last partial block is left out).
pub open spec fn compress_all(s: Seq<u32>, m: Seq<u8>) -> Seq<u32>
    decreases m.len(),
{
    if m.len() < 64 {
        s
    } else {
        compress_all(compress(s, m.take(64)), m.skip(64))
    }
}

/// How many zero bytes the padding of a message of `len` bytes has: enough that the
/// message, the `0x80` byte and the zeros end 8 bytes short of a block boundary.
pub open spec fn pad_zeros(len: nat) -> nat {
    if len % 64 <= 55 {
        (55 - len % 64) as nat
    } else {
        (119 - len % 64) as nat
    }
}

/// The eight bytes of `x`, most significant first.
pub open spec fn be_bytes64(x: u64) -> Seq<u8> {
    seq![
        (x >> 56u64) as u8,
        (x >> 48u64) as u8,
        (x >> 40u64) as u8,
        (x >> 32u64) as u8,
        (x >> 24u64) as u8,
        (x >> 16u64) as u8,
        (x >> 8u64) as u8,
        x as u8,
    ]
}

/// The padded message: the message, a `0x80` byte, the zeros, and the message's length in
/// bits modulo 2^64, big-endian.
pub open spec fn padded(m: Seq<u8>) -> Seq<u8> {
    m + seq![0x80u8] + Seq::new(pad_zeros(m.len()), |i: int| 0u8) + be_bytes64(
        ((m.len() * 8) % 0x1_0000_0000_0000_0000) as u64,
    )
}

/// The four bytes of `x`, most significant first.
pub open spec fn word_be(x: u32) -> Seq<u8> {
    seq![(x >> 24u32) as u8, (x >> 16u32) as u8, (x >> 8u32) as u8, x as u8]
}

/// The first `n` words of `s`, each most significant byte first.
pub open spec fn words_be(s: Seq<u32>, n: int) -> Seq<u8>
    decreases n,
{
    if n <= 0 {
        Seq::empty()
    } else {
        words_be(s, n - 1) + word_be(s[n - 1])
    }
}

/// The SHA-256 digest of `m`: 32 bytes.
pub open spec fn sha256(m: Seq<u8>) -> Seq<u8> {
    words_be(compress_all(h_init(), padded(m)), 8)
}

/// Compressing a message that ends with one more whole block is compressing that block
/// into the state of the rest.
pub proof fn lemma_compress_all_append(s: Seq<u32>, m: Seq<u8>, b: Seq<u8>)
    requires
        m.len() % 64 == 0,
        b.len() == 64,
    ensures
        compress_all(s, m + b) == compress(compress_all(s, m), b),
    decreases m.len(),
{
    if m.len() == 0 {
        assert(m + b =~= b);
        assert(b.take(64) =~= b);
        assert(b.skip(64).len() == 0);
        assert(compress_all(compress(s, b), b.skip(64)) == compress(s, b));
    } else {
        assert(m.len() >= 64);
        assert((m + b).take(64) =~= m.take(64));
        assert((m + b).skip(64) =~= m.skip(64) + b);
        lemma_compress_all_append(compress(s, m.take(64)), m.skip(64), b);
    }
}

/// The hasher's state matches the bytes `m` fed so far: `buf` is what follows the last
/// whole block, and `state` the result of compressing every whole block before it.
pub open spec fn consistent(state: Seq<u32>, buf: Seq<u8>, m: Seq<u8>) -> bool {
    let p = m.len() - buf.len();
    &&& buf.len() <= m.len()
    &&& p % 64 == 0
    &&& state.len() == 8
    &&& state == compress_all(h_init(), m.take(p))
    &&& buf == m.skip(p)
}

/// A SHA-256 hasher fed in chunks.
pub struct Sha256 {
    pub state: Vec<u32>,
    pub buf: Vec<u8>,
    pub total_len: u64,
    /// Every byte fed so far.
    pub msg: Ghost<Seq<u8>>,
}

impl Sha256 {
    pub open spec fn wf(&self) -> bool {
        &&& consistent(self.state@, self.buf@, self.msg@)
        &&& self.buf@.len() < 64
        &&& self.total_len == self.msg@.len()
    }

    /// A hasher that has been fed nothing.
    pub fn new() -> (res: Sha256)
        ensures
            res.wf(),
            res.msg@ == Seq::<u8>::empty(),
    {
        let state: Vec<u32> = vec![
            0x6a09e667u32,
            0xbb67ae85,
            0x3c6ef372,
            0xa54ff53a,
            0x510e527f,
            0x9b05688c,
            0x1f83d9ab,
            0x5be0cd19,
        ];
        assert(state@ =~= h_init());
        let res = Sha256 { state, buf: Vec::new(), total_len: 0, msg: Ghost(Seq::empty()) };
        assert(res.msg@.take(0) =~= Seq::<u8>::empty());
        assert(res.msg@.skip(0) =~= res.buf@);
        res
    }

    /// Feeds `data`.
    pub fn update(&mut self, data: &[u8])
        requires
            old(self).wf(),
            old(self).total_len + data@.len() <= u64::MAX,
        ensures
            final(self).wf(),
            final(self).msg@ == old(self).msg@ + data@,
    {
        let ghost m0 = self.msg@;
        self.total_len = self.total_len + data.len() as u64;
        let offset = fill_pending(&mut self.state, &mut self.buf, data, Ghost(m0));
        let offset = absorb_blocks(&mut self.state, &self.buf, data, offset, Ghost(m0));
        keep_rest(&self.state, &mut self.buf, data, offset, Ghost(m0));
        assert(data@.take(data@.len() as int) =~= data@);
        self.msg = Ghost(m0 + data@);
    }

    /// The digest of everything fed so far.
    pub fn finalize(&self) -> (res: Vec<u8>)
        requires
            self.wf(),
        ensures
            res@ == sha256(self.msg@),
    {
        let ghost m = self.msg@;
        let ghost p = m.len() - self.buf@.len();
        let ghost prefix = m.take(p);
        let ghost st0 = self.state@;
        let bit_len = self.total_len.wrapping_mul(8);
        assert(bit_len == ((m.len() * 8) % 0x1_0000_0000_0000_0000) as u64);
        let n = self.buf.len();
        assert(m.len() % 64 == n);
        assert(m =~= prefix + self.buf@);
        let mut state = copy_words(&self.state);
        let mut t: Vec<u8> = Vec::new();
        extend(&mut t, self.buf.as_slice());
        t.push(0x80u8);
        let ghost head = self.buf@ + seq![0x80u8];
        assert(t@ =~= head);
        if n >= 56 {
            zero_pad(&mut t, 64);
            let ghost t1 = t@;
            proof {
                lemma_compress_all_append(h_init(), prefix, t1);
            }
            state = compress_block(&state, t.as_slice());
            t = Vec::new();
            zero_pad(&mut t, 56);
            push_be64(&mut t, bit_len);
            proof {
                let z = pad_zeros(m.len());
                assert(z == 119 - n);
                assert(Seq::new(z, |i: int| 0u8) =~= Seq::new((64 - head.len()) as nat, |i: int| 0u8) + Seq::new(
                    56,
                    |i: int| 0u8,
                ));
                assert(padded(m) =~= (prefix + t1) + t@);
                lemma_compress_all_append(h_init(), prefix + t1, t@);
            }
        } else {
            zero_pad(&mut t, 56);
            push_be64(&mut t, bit_len);
            proof {
                assert(padded(m) =~= prefix + t@);
                lemma_compress_all_append(h_init(), prefix, t@);
            }
        }
        let fin = compress_block(&state, t.as_slice());
        proof {
            let pm = padded(m);
            assert(pm.len() % 64 == 0);
            assert(pm.skip(pm.len() as int).len() == 0);
        }
        digest_bytes(&fin)
    }
}

/// A copy of the words of `v`.
fn copy_words(v: &Vec<u32>) -> (res: Vec<u32>)
    ensures
        res@ == v@,
{
    let mut out: Vec<u32> = Vec::new();
    let mut i: usize = 0;
    while i < v.len()
        invariant
            i <= v@.len(),
            out@ == v@.take(i as int),
        decreases v@.len() - i,
    {
        out.push(v[i]);
        assert(v@.take(i + 1) =~= v@.take(i as int).push(v@[i as int]));
        i += 1;
    }
    assert(v@.take(v@.len() as int) =~= v@);
    out
}

/// Appends zeros until `t` is `target` bytes long.
fn zero_pad(t: &mut Vec<u8>, target: usize)
    requires
        old(t)@.len() <= target,
    ensures
        final(t)@ == old(t)@ + Seq::new((target - old(t)@.len()) as nat, |i: int| 0u8),
{
    let ghost t0 = t@;
    while t.len() < target
        invariant
            t0.len() <= t@.len() <= target,
            t@ == t0 + Seq::new((t@.len() - t0.len()) as nat, |i: int| 0u8),
        decreases target - t@.len(),
    {
        t.push(0u8);
        assert(t@ =~= t0 + Seq::new((t@.len() - t0.len()) as nat, |i: int| 0u8));
    }
}

/// Appends the eight bytes of `x`, most significant first.
fn push_be64(t: &mut Vec<u8>, x: u64)
    ensures
        final(t)@ == old(t)@ + be_bytes64(x),
{
    let ghost t0 = t@;
    t.push((x >> 56u64) as u8);
    t.push((x >> 48u64) as u8);
    t.push((x >> 40u64) as u8);
    t.push((x >> 32u64) as u8);
    t.push((x >> 24u64) as u8);
    t.push((x >> 16u64) as u8);
    t.push((x >> 8u64) as u8);
    t.push(x as u8);
    assert(t@ =~= t0 + be_bytes64(x));
}

/// The words of `st`, each most significant byte first.
fn digest_bytes(st: &Vec<u32>) -> (res: Vec<u8>)
    requires
        st@.len() == 8,
    ensures
        res@ == words_be(st@, 8),
{
    let mut out: Vec<u8> = Vec::new();
    let mut i: usize = 0;
    while i < 8
        invariant
            st@.len() == 8,
            i <= 8,
            out@ == words_be(st@, i as int),
        decreases 8 - i,
    {
        let x = st[i];
        let ghost before = out@;
        out.push((x >> 24u32) as u8);
        out.push((x >> 16u32) as u8);
        out.push((x >> 8u32) as u8);
        out.push(x as u8);
        assert(out@ =~= before + word_be(x));
        i += 1;
    }
    out
}

/// How the tool prints a digest: its bytes in lower-case hexadecimal, then ` -` and a
/// newline.
pub open spec fn hex_line(hash: Seq<u8>) -> Seq<u8> {
    hex_bytes(hash) + seq![32u8, 45u8, 10u8]
}

/// Each byte as two lower-case hexadecimal digits.
pub open spec fn hex_bytes(s: Seq<u8>) -> Seq<u8>
    decreases s.len(),
{
    if s.len() == 0 {
        Seq::empty()
    } else {
        hex_bytes(s.drop_last()) + seq![hex_digit(s.last() >> 4u8), hex_digit(s.last() & 15u8)]
    }
}

/// The line the tool prints for a digest.
pub fn format_digest(hash: &[u8]) -> (res: Vec<u8>)
    ensures
        res@ == hex_line(hash@),
{
    let mut out: Vec<u8> = Vec::new();
    let mut i: usize = 0;
    while i < hash.len()
        invariant
            i <= hash@.len(),
            out@ == hex_bytes(hash@.take(i as int)),
        decreases hash@.len() - i,
    {
        let b = hash[i];
        assert(b >> 4u8 < 16) by (bit_vector);
        assert(b & 15u8 < 16) by (bit_vector);
        out.push(hex_char(b >> 4u8));
        out.push(hex_char(b & 15u8));
        assert(hash@.take(i + 1).drop_last() =~= hash@.take(i as int));
        i += 1;
    }
    assert(hash@.take(hash@.len() as int) =~= hash@);
    out.push(32u8);
    out.push(45u8);
    out.push(10u8);
    out
}

/// The hasher's state depends only on the bytes fed, not on how they were split into
/// chunks: two hashers that were fed the same bytes hold the same state and pending bytes.
pub proof fn law_state_by_bytes(s1: Seq<u32>, b1: Seq<u8>, s2: Seq<u32>, b2: Seq<u8>, m: Seq<u8>)
    requires
        consistent(s1, b1, m),
        b1.len() < 64,
        consistent(s2, b2, m),
        b2.len() < 64,
    ensures
        s1 == s2,
        b1 == b2,
{
    assert(b1.len() == m.len() % 64);
    assert(b2.len() == m.len() % 64);
}

/// Tops up the pending bytes from the front of `data` and compresses them once they make a
/// whole block; the answer is how many bytes of `data` were taken.
fn fill_pending(state: &mut Vec<u32>, buf: &mut Vec<u8>, data: &[u8], Ghost(m0): Ghost<Seq<u8>>) -> (res: usize)
    requires
        consistent(old(state)@, old(buf)@, m0),
        old(buf)@.len() < 64,
    ensures
        res <= data@.len(),
        consistent(final(state)@, final(buf)@, m0 + data@.take(res as int)),
        final(buf)@.len() < 64,
        final(buf)@.len() == 0 || res == data@.len(),
{
    if buf.len() == 0 {
        assert(m0 + data@.take(0) =~= m0);
        return 0;
    }
    let space = 64 - buf.len();
    let to_copy = if data.len() < space {
        data.len()
    } else {
        space
    };
    let ghost b0 = buf@;
    let ghost p = m0.len() - b0.len();
    extend(buf, &data[0..to_copy]);
    let ghost m = m0 + data@.take(to_copy as int);
    assert(m.take(p) =~= m0.take(p));
    assert(buf@ =~= m.skip(p));
    if buf.len() == 64 {
        let st = compress_block(state, buf.as_slice());
        proof {
            assert(m.take(p + 64) =~= m.take(p) + buf@);
            lemma_compress_all_append(h_init(), m.take(p), buf@);
            assert(m.take(m.len() as int) =~= m.take(p + 64));
            assert(m.skip(m.len() as int) =~= Seq::<u8>::empty());
        }
        *state = st;
        *buf = Vec::new();
    }
    to_copy
}

/// Compresses the whole blocks of `data` from `offset` on, while no bytes are pending; the
/// answer is where the last partial block starts.
fn absorb_blocks(state: &mut Vec<u32>, buf: &Vec<u8>, data: &[u8], offset: usize, Ghost(m0): Ghost<Seq<u8>>) -> (res: usize)
    requires
        offset <= data@.len(),
        consistent(old(state)@, buf@, m0 + data@.take(offset as int)),
        buf@.len() == 0 || offset == data@.len(),
    ensures
        offset <= res <= data@.len(),
        data@.len() - res < 64 || buf@.len() > 0,
        buf@.len() > 0 ==> res == offset,
        consistent(final(state)@, buf@, m0 + data@.take(res as int)),
{
    if buf.len() > 0 {
        return offset;
    }
    let mut off = offset;
    while data.len() - off >= 64
        invariant
            offset <= off <= data@.len(),
            buf@.len() == 0,
            consistent(state@, buf@, m0 + data@.take(off as int)),
        decreases data@.len() - off,
    {
        let block = &data[off..off + 64];
        let ghost m = m0 + data@.take(off as int);
        let ghost m2 = m0 + data@.take(off + 64);
        let st = compress_block(state, block);
        proof {
            assert(m2 =~= m + block@);
            assert(m.take(m.len() as int) =~= m);
            assert(m2.take(m2.len() as int) =~= m2);
            lemma_compress_all_append(h_init(), m, block@);
            assert(m2.skip(m2.len() as int) =~= buf@);
        }
        *state = st;
        off = off + 64;
    }
    off
}

/// Keeps the bytes of `data` from `offset` on as the pending bytes.
fn keep_rest(state: &Vec<u32>, buf: &mut Vec<u8>, data: &[u8], offset: usize, Ghost(m0): Ghost<Seq<u8>>)
    requires
        offset <= data@.len(),
        old(buf)@.len() + (data@.len() - offset) < 64,
        consistent(state@, old(buf)@, m0 + data@.take(offset as int)),
    ensures
        final(buf)@.len() < 64,
        consistent(state@, final(buf)@, m0 + data@),
{
    let mut off = offset;
    while off < data.len()
        invariant
            offset <= off <= data@.len(),
            buf@.len() + (data@.len() - off) < 64,
            consistent(state@, buf@, m0 + data@.take(off as int)),
        decreases data@.len() - off,
    {
        let ghost b0 = buf@;
        let ghost m = m0 + data@.take(off as int);
        let ghost m2 = m0 + data@.take(off + 1);
        let ghost p = m.len() - b0.len();
        buf.push(data[off]);
        proof {
            assert(m2 =~= m.push(data@[off as int]));
            assert(m2.take(p) =~= m.take(p));
            assert(m2.skip(p) =~= buf@);
        }
        off = off + 1;
    }
    assert(data@.take(data@.len() as int) =~= data@);
}

} // verus!
