//! Base64 (RFC 4648, standard alphabet, `=` padding) over a stream: an encoder that keeps
//! the bytes of an unfinished group of three, and a decoder that skips white space and
//! keeps the characters of an unfinished group of four.

use vstd::prelude::*;
use crate::bytes::{scan_until, lemma_scan_until_bounds};

verus! {

/// The character for a 6-bit value.
pub open spec fn enc_char(v: u8) -> u8 {
    if v < 26 {
        (65 + v) as u8
    } else if v < 52 {
        (71 + v) as u8
    } else if v < 62 {
        (v - 4) as u8
    } else if v == 62 {
        43
    } else {
        47
    }
}

/// The value of a character: its 6-bit value, 0 for `=`, and 255 for anything else.
pub open spec fn dec_val(c: u8) -> u8 {
    if 65 <= c <= 90 {
        (c - 65) as u8
    } else if 97 <= c <= 122 {
        (c - 71) as u8
    } else if 48 <= c <= 57 {
        (c + 4) as u8
    } else if c == 43 {
        62
    } else if c == 47 {
        63
    } else if c == 61 {
        0
    } else {
        255
    }
}

/// Three bytes as one 24-bit number.
pub open spec fn triple_of(b0: u8, b1: u8, b2: u8) -> u32 {
    ((b0 as u32) << 16u32) | ((b1 as u32) << 8u32) | (b2 as u32)
}

/// The six bits of `t` from bit `shift` up.
pub open spec fn sextet(t: u32, shift: u32) -> u8 {
    ((t >> shift) & 0x3f) as u8
}

/// The four characters for three bytes.
pub open spec fn enc_triple(b0: u8, b1: u8, b2: u8) -> Seq<u8> {
    let t = triple_of(b0, b1, b2);
    seq![enc_char(sextet(t, 18)), enc_char(sextet(t, 12)), enc_char(sextet(t, 6)), enc_char(sextet(t, 0))]
}

/// The characters for the whole groups of three at the front of `m`.
pub open spec fn enc_full(m: Seq<u8>) -> Seq<u8>
    decreases m.len(),
{
    if m.len() < 3 {
        Seq::empty()
    } else {
        enc_triple(m[0], m[1], m[2]) + enc_full(m.skip(3))
    }
}

/// The padded group for the one or two bytes after the last whole group of `m`.
pub open spec fn enc_tail(m: Seq<u8>) -> Seq<u8> {
    let r = m.len() % 3;
    let k = m.len() - r;
    if r == 0 {
        Seq::empty()
    } else if r == 1 {
        let t = triple_of(m[k], 0, 0);
        seq![enc_char(sextet(t, 18)), enc_char(sextet(t, 12)), 61u8, 61u8]
    } else {
        let t = triple_of(m[k], m[k + 1], 0);
        seq![enc_char(sextet(t, 18)), enc_char(sextet(t, 12)), enc_char(sextet(t, 6)), 61u8]
    }
}

/// The Base64 encoding of `m`.
pub open spec fn encode(m: Seq<u8>) -> Seq<u8> {
    enc_full(m) + enc_tail(m)
}

/// A space, tab, carriage return or newline: skipped when decoding.
pub open spec fn is_space(c: u8) -> bool {
    c == 10 || c == 13 || c == 32 || c == 9
}

/// The characters of `m` that are not white space.
pub open spec fn non_space(m: Seq<u8>) -> Seq<u8>
    decreases m.len(),
{
    if m.len() == 0 {
        Seq::empty()
    } else if is_space(m.last()) {
        non_space(m.drop_last())
    } else {
        non_space(m.drop_last()).push(m.last())
    }
}

/// Four characters as one 24-bit number (characters outside the alphabet count as 255).
pub open spec fn quad_triple(q: Seq<u8>) -> u32 {
    ((dec_val(q[0]) as u32) << 18u32) | ((dec_val(q[1]) as u32) << 12u32) | ((dec_val(q[2]) as u32) << 6u32) | (
    dec_val(q[3]) as u32)
}

/// The bytes for four characters: one, then one more unless the third is `=`, then one
/// more unless the fourth is `=`.
pub open spec fn dec_quad(q: Seq<u8>) -> Seq<u8> {
    let t = quad_triple(q);
    seq![(t >> 16u32) as u8] + (if q[2] != 61 {
        seq![(t >> 8u32) as u8]
    } else {
        Seq::empty()
    }) + (if q[3] != 61 {
        seq![t as u8]
    } else {
        Seq::empty()
    })
}

/// The bytes for the whole groups of four at the front of `f`.
pub open spec fn dec_full(f: Seq<u8>) -> Seq<u8>
    decreases f.len(),
{
    if f.len() < 4 {
        Seq::empty()
    } else {
        dec_quad(f.take(4)) + dec_full(f.skip(4))
    }
}

/// What the decoder writes for the input `m`: the bytes of every whole group of four
/// characters, white space aside (a last partial group is dropped).
pub open spec fn decode(m: Seq<u8>) -> Seq<u8> {
    dec_full(non_space(m))
}

/// Encoding a message that is whole groups followed by more is encoding each part.
pub proof fn lemma_enc_full_append(a: Seq<u8>, b: Seq<u8>)
    requires
        a.len() % 3 == 0,
    ensures
        enc_full(a + b) == enc_full(a) + enc_full(b),
    decreases a.len(),
{
    if a.len() == 0 {
        assert(a + b =~= b);
        assert(enc_full(a) =~= Seq::<u8>::empty());
        assert(Seq::<u8>::empty() + enc_full(b) =~= enc_full(b));
    } else {
        assert((a + b).skip(3) =~= a.skip(3) + b);
        assert((a + b)[0] == a[0] && (a + b)[1] == a[1] && (a + b)[2] == a[2]);
        lemma_enc_full_append(a.skip(3), b);
        assert(enc_triple(a[0], a[1], a[2]) + (enc_full(a.skip(3)) + enc_full(b)) =~= (enc_triple(a[0], a[1], a[2])
            + enc_full(a.skip(3))) + enc_full(b));
    }
}

/// Decoding characters that are whole groups followed by more is decoding each part.
pub proof fn lemma_dec_full_append(a: Seq<u8>, b: Seq<u8>)
    requires
        a.len() % 4 == 0,
    ensures
        dec_full(a + b) == dec_full(a) + dec_full(b),
    decreases a.len(),
{
    if a.len() == 0 {
        assert(a + b =~= b);
        assert(dec_full(a) =~= Seq::<u8>::empty());
        assert(Seq::<u8>::empty() + dec_full(b) =~= dec_full(b));
    } else {
        assert((a + b).skip(4) =~= a.skip(4) + b);
        assert((a + b).take(4) =~= a.take(4));
        lemma_dec_full_append(a.skip(4), b);
        assert(dec_quad(a.take(4)) + (dec_full(a.skip(4)) + dec_full(b)) =~= (dec_quad(a.take(4)) + dec_full(
            a.skip(4),
        )) + dec_full(b));
    }
}

/// The character for each 6-bit value is in the alphabet, is neither `=` nor white space,
/// and decodes to that value.
pub proof fn lemma_char_roundtrip(v: u8)
    requires
        v < 64,
    ensures
        dec_val(enc_char(v)) == v,
        enc_char(v) != 61,
        !is_space(enc_char(v)),
{
}

/// The bit arithmetic of one group: the sextets of three bytes put back together give the
/// same 24 bits, and those give the three bytes.
pub proof fn lemma_group_bits(b0: u8, b1: u8, b2: u8)
    ensures
        ({
            let t = triple_of(b0, b1, b2);
            let u = ((sextet(t, 18) as u32) << 18u32) | ((sextet(t, 12) as u32) << 12u32) | ((sextet(t, 6) as u32)
                << 6u32) | (sextet(t, 0) as u32);
            &&& u == t
            &&& (u >> 16u32) as u8 == b0
            &&& (u >> 8u32) as u8 == b1
            &&& u as u8 == b2
            &&& sextet(t, 18) < 64
            &&& sextet(t, 12) < 64
            &&& sextet(t, 6) < 64
            &&& sextet(t, 0) < 64
        }),
{
    assert({
        let t = ((b0 as u32) << 16u32) | ((b1 as u32) << 8u32) | (b2 as u32);
        let s0 = ((t >> 18u32) & 0x3f) as u8;
        let s1 = ((t >> 12u32) & 0x3f) as u8;
        let s2 = ((t >> 6u32) & 0x3f) as u8;
        let s3 = ((t >> 0u32) & 0x3f) as u8;
        let u = ((s0 as u32) << 18u32) | ((s1 as u32) << 12u32) | ((s2 as u32) << 6u32) | (s3 as u32);
        &&& u == t
        &&& (u >> 16u32) as u8 == b0
        &&& (u >> 8u32) as u8 == b1
        &&& u as u8 == b2
        &&& s0 < 64 && s1 < 64 && s2 < 64 && s3 < 64
    }) by (bit_vector);
}

/// Decoding the encoding of a group of three gives the three bytes back.
pub proof fn lemma_triple_roundtrip(b0: u8, b1: u8, b2: u8)
    ensures
        dec_quad(enc_triple(b0, b1, b2)) == seq![b0, b1, b2],
{
    let t = triple_of(b0, b1, b2);
    lemma_group_bits(b0, b1, b2);
    lemma_char_roundtrip(sextet(t, 18));
    lemma_char_roundtrip(sextet(t, 12));
    lemma_char_roundtrip(sextet(t, 6));
    lemma_char_roundtrip(sextet(t, 0));
    let q = enc_triple(b0, b1, b2);
    assert(quad_triple(q) == t);
    assert(dec_quad(q) =~= seq![b0, b1, b2]);
}

/// Decoding the padded encoding of the last one or two bytes gives them back.
pub proof fn lemma_tail_roundtrip(m: Seq<u8>)
    ensures
        dec_full(enc_tail(m)) == m.skip(m.len() - m.len() % 3),
{
    let r = m.len() % 3;
    let k = m.len() - r;
    if r == 0 {
        assert(m.skip(k) =~= Seq::<u8>::empty());
    } else if r == 1 {
        let t = triple_of(m[k], 0, 0);
        lemma_group_bits(m[k], 0, 0);
        lemma_char_roundtrip(sextet(t, 18));
        lemma_char_roundtrip(sextet(t, 12));
        let q = enc_tail(m);
        assert(sextet(t, 6) == 0 && sextet(t, 0) == 0) by {
            let b = m[k];
            assert({
                let w = ((b as u32) << 16u32) | ((0u8 as u32) << 8u32) | (0u8 as u32);
                ((w >> 6u32) & 0x3f) as u8 == 0 && ((w >> 0u32) & 0x3f) as u8 == 0
            }) by (bit_vector);
        }
        assert(quad_triple(q) == t);
        assert(q.take(4) =~= q);
        assert(q.skip(4).len() == 0);
        assert(dec_full(q) == dec_quad(q) + dec_full(q.skip(4)));
        assert(dec_full(q.skip(4)) =~= Seq::<u8>::empty());
        assert(dec_quad(q) =~= seq![m[k]]);
        assert(dec_full(q) =~= seq![m[k]]);
        assert(m.skip(k) =~= seq![m[k]]);
    } else {
        let t = triple_of(m[k], m[k + 1], 0);
        lemma_group_bits(m[k], m[k + 1], 0);
        lemma_char_roundtrip(sextet(t, 18));
        lemma_char_roundtrip(sextet(t, 12));
        lemma_char_roundtrip(sextet(t, 6));
        let q = enc_tail(m);
        assert(sextet(t, 0) == 0) by {
            let b0 = m[k];
            let b1 = m[k + 1];
            assert({
                let w = ((b0 as u32) << 16u32) | ((b1 as u32) << 8u32) | (0u8 as u32);
                ((w >> 0u32) & 0x3f) as u8 == 0
            }) by (bit_vector);
        }
        assert(quad_triple(q) == t);
        assert(q.take(4) =~= q);
        assert(q.skip(4).len() == 0);
        assert(dec_full(q) == dec_quad(q) + dec_full(q.skip(4)));
        assert(dec_full(q.skip(4)) =~= Seq::<u8>::empty());
        assert(dec_quad(q) =~= seq![m[k], m[k + 1]]);
        assert(dec_full(q) =~= seq![m[k], m[k + 1]]);
        assert(m.skip(k) =~= seq![m[k], m[k + 1]]);
    }
}

/// Every character of the encoding is in the alphabet or is `=`: none is white space.
pub proof fn lemma_encode_no_space(m: Seq<u8>)
    ensures
        forall|i: int| 0 <= i < encode(m).len() ==> !is_space(#[trigger] encode(m)[i]),
    decreases m.len(),
{
    let r = m.len() % 3;
    let k = m.len() - r;
    if r == 1 {
        let t = triple_of(m[k], 0, 0);
        lemma_group_bits(m[k], 0, 0);
        lemma_char_roundtrip(sextet(t, 18));
        lemma_char_roundtrip(sextet(t, 12));
    } else if r == 2 {
        let t = triple_of(m[k], m[k + 1], 0);
        lemma_group_bits(m[k], m[k + 1], 0);
        lemma_char_roundtrip(sextet(t, 18));
        lemma_char_roundtrip(sextet(t, 12));
        lemma_char_roundtrip(sextet(t, 6));
    }
    if m.len() >= 3 {
        let rest = m.skip(3);
        lemma_encode_no_space(rest);
        lemma_tail_shift(m);
        let t = triple_of(m[0], m[1], m[2]);
        lemma_group_bits(m[0], m[1], m[2]);
        lemma_char_roundtrip(sextet(t, 18));
        lemma_char_roundtrip(sextet(t, 12));
        lemma_char_roundtrip(sextet(t, 6));
        lemma_char_roundtrip(sextet(t, 0));
        assert(encode(m) =~= enc_triple(m[0], m[1], m[2]) + encode(rest));
    }
}

/// The padded last group of a message is that of the message without its first group.
pub proof fn lemma_tail_shift(m: Seq<u8>)
    requires
        m.len() >= 3,
    ensures
        enc_tail(m) == enc_tail(m.skip(3)),
{
    let rest = m.skip(3);
    let k = m.len() - m.len() % 3;
    assert(rest.len() % 3 == m.len() % 3);
    if m.len() % 3 >= 1 {
        assert(rest[k - 3] == m[k]);
    }
    if m.len() % 3 == 2 {
        assert(rest[k - 2] == m[k + 1]);
    }
}

/// Without white space, `non_space` changes nothing.
pub proof fn lemma_non_space_id(s: Seq<u8>)
    requires
        forall|i: int| 0 <= i < s.len() ==> !is_space(#[trigger] s[i]),
    ensures
        non_space(s) == s,
    decreases s.len(),
{
    if s.len() > 0 {
        lemma_non_space_id(s.drop_last());
        assert(s.drop_last().push(s.last()) =~= s);
    }
}

/// Decoding the encoding gives every byte back.
pub proof fn lemma_dec_encode(m: Seq<u8>)
    ensures
        dec_full(encode(m)) == m,
    decreases m.len(),
{
    if m.len() < 3 {
        lemma_tail_roundtrip(m);
        assert(encode(m) =~= enc_tail(m));
        assert(m.skip(0) =~= m);
    } else {
        let rest = m.skip(3);
        lemma_tail_shift(m);
        assert(encode(m) =~= enc_triple(m[0], m[1], m[2]) + encode(rest));
        lemma_dec_full_append(enc_triple(m[0], m[1], m[2]), encode(rest));
        lemma_triple_roundtrip(m[0], m[1], m[2]);
        let q = enc_triple(m[0], m[1], m[2]);
        assert(q.take(4) =~= q);
        assert(dec_full(q.skip(4)) =~= Seq::<u8>::empty());
        assert(dec_full(q) =~= seq![m[0], m[1], m[2]]);
        lemma_dec_encode(rest);
        assert(seq![m[0], m[1], m[2]] + rest =~= m);
    }
}

/// However the input is split, feeding the encoder one chunk and then another and then
/// finishing writes the encoding of everything fed, and its newline: what `encode_chunk`
/// answers for each chunk, followed by what `finish` answers.
pub proof fn law_chunked_encoding(
    e0: Base64Encoder,
    e1: Base64Encoder,
    e2: Base64Encoder,
    a: Seq<u8>,
    b: Seq<u8>,
    out1: Seq<u8>,
    out2: Seq<u8>,
    tail: Seq<u8>,
)
    requires
        e0.wf(),
        e0.fed@ == Seq::<u8>::empty(),
        e1.fed@ == e0.fed@ + a,
        enc_full(e0.fed@) + out1 == enc_full(e1.fed@),
        e2.fed@ == e1.fed@ + b,
        enc_full(e1.fed@) + out2 == enc_full(e2.fed@),
        tail == enc_tail(e2.fed@).push(10u8),
    ensures
        out1 + out2 + tail == encode(a + b).push(10u8),
{
    assert(enc_full(Seq::<u8>::empty()) == Seq::<u8>::empty());
    assert(Seq::<u8>::empty() + a =~= a);
    assert(Seq::<u8>::empty() + out1 =~= out1);
    assert(out1 + out2 + tail =~= (enc_full(a + b) + enc_tail(a + b)).push(10u8));
}

/// Whatever is encoded, with the newline the encoder ends with, decodes to the same bytes.
pub proof fn law_roundtrip(m: Seq<u8>)
    ensures
        decode(encode(m).push(10u8)) == m,
{
    let e = encode(m);
    lemma_encode_no_space(m);
    lemma_non_space_id(e);
    assert(e.push(10u8).drop_last() =~= e);
    assert(non_space(e.push(10u8)) == non_space(e));
    lemma_dec_encode(m);
}

/// The character for a 6-bit value.
fn enc_char_exec(v: u8) -> (c: u8)
    ensures
        c == enc_char(v),
{
    if v < 26 {
        65 + v
    } else if v < 52 {
        71 + v
    } else if v < 62 {
        v - 4
    } else if v == 62 {
        43
    } else {
        47
    }
}

/// The value of a character, as `dec_val`.
fn dec_val_exec(c: u8) -> (v: u8)
    ensures
        v == dec_val(c),
{
    if 65 <= c && c <= 90 {
        c - 65
    } else if 97 <= c && c <= 122 {
        c - 71
    } else if 48 <= c && c <= 57 {
        c + 4
    } else if c == 43 {
        62
    } else if c == 47 {
        63
    } else if c == 61 {
        0
    } else {
        255
    }
}

/// A Base64 encoder fed in chunks.
pub struct Base64Encoder {
    /// The bytes after the last whole group of three.
    pub rem: Vec<u8>,
    /// Every byte fed so far.
    pub fed: Ghost<Seq<u8>>,
}

impl Base64Encoder {
    pub open spec fn wf(&self) -> bool {
        &&& self.rem@.len() < 3
        &&& self.rem@.len() == self.fed@.len() % 3
        &&& self.rem@ == self.fed@.skip(self.fed@.len() - self.rem@.len())
    }

    /// An encoder that has been fed nothing.
    pub fn new() -> (res: Base64Encoder)
        ensures
            res.wf(),
            res.fed@ == Seq::<u8>::empty(),
    {
        let res = Base64Encoder { rem: Vec::new(), fed: Ghost(Seq::empty()) };
        assert(res.fed@.skip(0) =~= res.rem@);
        res
    }

    /// Feeds `input`; the answer is the characters of the groups of three it completes.
    pub fn encode_chunk(&mut self, input: &[u8]) -> (out: Vec<u8>)
        requires
            old(self).wf(),
        ensures
            final(self).wf(),
            final(self).fed@ == old(self).fed@ + input@,
            enc_full(old(self).fed@) + out@ == enc_full(final(self).fed@),
    {
        let ghost f0 = self.fed@;
        let mut out: Vec<u8> = Vec::new();
        let mut i: usize = 0;
        assert(f0 + input@.take(0) =~= f0);
        assert(enc_full(f0) + out@ =~= enc_full(f0));
        while i < input.len()
            invariant
                i <= input@.len(),
                self.rem@.len() < 3,
                ({
                    let m = f0 + input@.take(i as int);
                    &&& self.rem@.len() == m.len() % 3
                    &&& self.rem@ == m.skip(m.len() - self.rem@.len())
                    &&& enc_full(f0) + out@ == enc_full(m)
                }),
            decreases input@.len() - i,
        {
            let ghost m = f0 + input@.take(i as int);
            let ghost m2 = f0 + input@.take(i + 1);
            let ghost a = m.take(m.len() - self.rem@.len());
            let ghost before = out@;
            assert(m2 =~= m.push(input@[i as int]));
            assert(m =~= a + self.rem@);
            proof {
                lemma_enc_full_append(a, self.rem@);
            }
            self.rem.push(input[i]);
            assert(m2 =~= a + self.rem@);
            proof {
                lemma_enc_full_append(a, self.rem@);
            }
            if self.rem.len() == 3 {
                let t = ((self.rem[0] as u32) << 16u32) | ((self.rem[1] as u32) << 8u32) | (self.rem[2] as u32);
                out.push(enc_char_exec(((t >> 18u32) & 0x3f) as u8));
                out.push(enc_char_exec(((t >> 12u32) & 0x3f) as u8));
                out.push(enc_char_exec(((t >> 6u32) & 0x3f) as u8));
                out.push(enc_char_exec(((t >> 0u32) & 0x3f) as u8));
                proof {
                    let r = self.rem@;
                    assert(r.skip(3).len() == 0);
                    assert(enc_full(r) == enc_triple(r[0], r[1], r[2]) + enc_full(r.skip(3)));
                    assert(enc_full(r) =~= enc_triple(r[0], r[1], r[2]));
                    assert(out@ =~= before + enc_triple(r[0], r[1], r[2]));
                    assert(enc_full(f0) + out@ =~= (enc_full(f0) + before) + enc_triple(r[0], r[1], r[2]));
                    assert(m2.skip(m2.len() as int) =~= Seq::<u8>::empty());
                }
                self.rem = Vec::new();
            } else {
                assert(m2.skip(m2.len() - self.rem@.len()) =~= self.rem@);
            }
            i += 1;
        }
        assert(input@.take(input@.len() as int) =~= input@);
        self.fed = Ghost(f0 + input@);
        out
    }

    /// The end of the encoding: the padded last group, if bytes are pending, and a newline.
    pub fn finish(&self) -> (out: Vec<u8>)
        requires
            self.wf(),
        ensures
            out@ == enc_tail(self.fed@).push(10u8),
    {
        let mut out: Vec<u8> = Vec::new();
        let n = self.rem.len();
        let ghost m = self.fed@;
        let ghost k = m.len() - m.len() % 3;
        if n > 0 {
            let b1: u8 = if n >= 2 {
                self.rem[1]
            } else {
                0
            };
            assert(self.rem@[0] == m[k]);
            assert(n >= 2 ==> self.rem@[1] == m[k + 1]);
            let t = ((self.rem[0] as u32) << 16u32) | ((b1 as u32) << 8u32) | (0u8 as u32);
            out.push(enc_char_exec(((t >> 18u32) & 0x3f) as u8));
            out.push(enc_char_exec(((t >> 12u32) & 0x3f) as u8));
            if n >= 2 {
                out.push(enc_char_exec(((t >> 6u32) & 0x3f) as u8));
            } else {
                out.push(61u8);
            }
            out.push(61u8);
        }
        out.push(10u8);
        assert(out@ =~= enc_tail(m).push(10u8));
        out
    }
}

/// A Base64 decoder fed in chunks.
pub struct Base64Decoder {
    /// The characters after the last whole group of four, white space aside.
    pub quad: Vec<u8>,
    /// Every byte fed so far.
    pub fed: Ghost<Seq<u8>>,
}

impl Base64Decoder {
    pub open spec fn wf(&self) -> bool {
        let f = non_space(self.fed@);
        &&& self.quad@.len() < 4
        &&& self.quad@.len() == f.len() % 4
        &&& self.quad@ == f.skip(f.len() - self.quad@.len())
    }

    /// A decoder that has been fed nothing.
    pub fn new() -> (res: Base64Decoder)
        ensures
            res.wf(),
            res.fed@ == Seq::<u8>::empty(),
    {
        let res = Base64Decoder { quad: Vec::new(), fed: Ghost(Seq::empty()) };
        assert(non_space(res.fed@).skip(0) =~= res.quad@);
        res
    }

    /// Feeds `input`; the answer is the bytes of the groups of four it completes.
    pub fn decode_chunk(&mut self, input: &[u8]) -> (out: Vec<u8>)
        requires
            old(self).wf(),
        ensures
            final(self).wf(),
            final(self).fed@ == old(self).fed@ + input@,
            decode(old(self).fed@) + out@ == decode(final(self).fed@),
    {
        let ghost f0 = self.fed@;
        let mut out: Vec<u8> = Vec::new();
        let mut i: usize = 0;
        assert(f0 + input@.take(0) =~= f0);
        assert(decode(f0) + out@ =~= decode(f0));
        while i < input.len()
            invariant
                i <= input@.len(),
                self.quad@.len() < 4,
                ({
                    let f = non_space(f0 + input@.take(i as int));
                    &&& self.quad@.len() == f.len() % 4
                    &&& self.quad@ == f.skip(f.len() - self.quad@.len())
                    &&& decode(f0) + out@ == dec_full(f)
                }),
            decreases input@.len() - i,
        {
            let ghost m = f0 + input@.take(i as int);
            let ghost m2 = f0 + input@.take(i + 1);
            let ghost f = non_space(m);
            let ghost a = f.take(f.len() - self.quad@.len());
            let ghost before = out@;
            let c = input[i];
            assert(m2 =~= m.push(c));
            assert(m2.drop_last() =~= m);
            if c == 10 || c == 13 || c == 32 || c == 9 {
                assert(non_space(m2) == f);
            } else {
                assert(non_space(m2) == f.push(c));
                let ghost f2 = f.push(c);
                assert(f =~= a + self.quad@);
                proof {
                    lemma_dec_full_append(a, self.quad@);
                }
                self.quad.push(c);
                assert(f2 =~= a + self.quad@);
                proof {
                    lemma_dec_full_append(a, self.quad@);
                }
                if self.quad.len() == 4 {
                    let q0 = self.quad[0];
                    let q2 = self.quad[2];
                    let q3 = self.quad[3];
                    let t = ((dec_val_exec(q0) as u32) << 18u32) | ((dec_val_exec(self.quad[1]) as u32) << 12u32)
                        | ((dec_val_exec(q2) as u32) << 6u32) | (dec_val_exec(q3) as u32);
                    out.push((t >> 16u32) as u8);
                    if q2 != 61 {
                        out.push((t >> 8u32) as u8);
                    }
                    if q3 != 61 {
                        out.push(t as u8);
                    }
                    proof {
                        let q = self.quad@;
                        assert(q.take(4) =~= q);
                        assert(dec_full(q.skip(4)) =~= Seq::<u8>::empty());
                        assert(dec_full(q) =~= dec_quad(q));
                        assert(out@ =~= before + dec_quad(q));
                        assert(decode(f0) + out@ =~= (decode(f0) + before) + dec_quad(q));
                        assert(f2.skip(f2.len() as int) =~= Seq::<u8>::empty());
                    }
                    self.quad = Vec::new();
                } else {
                    assert(f2.skip(f2.len() - self.quad@.len()) =~= self.quad@);
                }
            }
            i += 1;
        }
        assert(input@.take(input@.len() as int) =~= input@);
        self.fed = Ghost(f0 + input@);
        out
    }
}

/// Whether some argument after the first NUL-separated field from `i` on is exactly `-d`.
pub open spec fn has_flag_from(cmdline: Seq<u8>, i: int) -> bool
    decreases cmdline.len() - i,
{
    if i < 0 || i >= cmdline.len() {
        false
    } else {
        let e = scan_until(cmdline, i, |c: u8| c == 0);
        proof {
            lemma_scan_until_bounds(cmdline, i, |c: u8| c == 0);
        }
        cmdline.subrange(i, e) == seq![45u8, 100u8] || (e < cmdline.len() && has_flag_from(cmdline, e + 1))
    }
}

/// True when some argument (after the program's name) in a command line as
/// `/proc/self/cmdline` holds it is `-d`: the tool then decodes.
pub fn args_contain_d(cmdline: &[u8]) -> (res: bool)
    ensures
        res == has_flag_from(cmdline@, scan_until(cmdline@, 0, |c: u8| c == 0) + 1),
{
    let mut i: usize = 0;
    while i < cmdline.len() && cmdline[i] != 0
        invariant
            i <= cmdline@.len(),
            scan_until(cmdline@, 0, |c: u8| c == 0) == scan_until(cmdline@, i as int, |c: u8| c == 0),
        decreases cmdline@.len() - i,
    {
        i += 1;
    }
    if i >= cmdline.len() {
        return false;
    }
    i += 1;
    while i < cmdline.len()
        invariant
            1 <= i <= cmdline@.len(),
            has_flag_from(cmdline@, scan_until(cmdline@, 0, |c: u8| c == 0) + 1) == has_flag_from(cmdline@, i as int),
        decreases cmdline@.len() - i,
    {
        let start = i;
        while i < cmdline.len() && cmdline[i] != 0
            invariant
                start <= i <= cmdline@.len(),
                scan_until(cmdline@, start as int, |c: u8| c == 0) == scan_until(cmdline@, i as int, |c: u8| c == 0),
            decreases cmdline@.len() - i,
        {
            i += 1;
        }
        if i - start == 2 && cmdline[start] == 45 && cmdline[start + 1] == 100 {
            assert(cmdline@.subrange(start as int, i as int) =~= seq![45u8, 100u8]);
            return true;
        }
        proof {
            let sub = cmdline@.subrange(start as int, i as int);
            let flag = seq![45u8, 100u8];
            assert(flag.len() == 2 && flag[0] == 45u8 && flag[1] == 100u8);
            if sub == flag {
                assert(i - start == 2);
                assert(sub[0] == cmdline@[start as int + 0]);
                assert(sub[1] == cmdline@[start as int + 1]);
            }
            lemma_scan_until_bounds(cmdline@, start as int, |c: u8| c == 0);
        }
        if i >= cmdline.len() {
            return false;
        }
        i += 1;
    }
    false
}

} // verus!
