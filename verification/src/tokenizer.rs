//! The byte-pair-encoding tokenizer of the GPT-2 runner: its binary file format (a magic
//! number, a vocabulary of byte strings and a list of merges by priority), the lookup of a
//! token by its bytes, and the encoding of a text by repeatedly applying the merge of
//! highest priority.

use vstd::prelude::*;
use crate::bytes::{extend, bytes_eq, min};
use crate::x11::{u16_at, u32_at, get_u16_le, get_u32_le};

verus! {

/// The number that starts a tokenizer file (`TOKN`, little-endian).
pub const TOKEN_MAGIC: u32 = 0x544F4B4E;
/// The most tokens the vocabulary may hold.
pub const MAX_VOCAB: usize = 50257;
/// The most merges the tokenizer takes.
pub const MAX_MERGES: usize = 64000;
/// The most bytes all token strings together may hold.
pub const MAX_VOCAB_BYTES: usize = 512 * 1024;
/// How many bytes of a text are encoded.
pub const MAX_TEXT: usize = 2048;

/// A merge: the two tokens it joins, and the token that replaces them.
pub struct Merge {
    pub a: u32,
    pub b: u32,
    pub result: u32,
}

/// A tokenizer: the bytes of each token, by id, and the merges, by priority (first is
/// highest).
pub struct Tokenizer {
    pub vocab: Vec<Vec<u8>>,
    pub merges: Vec<Merge>,
}

/// Why a tokenizer file is refused.
#[derive(PartialEq, Eq, Structural, Clone, Copy)]
pub enum TokenizerError {
    /// It does not start with `TOKEN_MAGIC`.
    BadMagic,
    /// It declares more tokens or merges, or more token bytes, than the tokenizer holds.
    TooLarge,
    /// It ends before what it declares.
    Truncated,
}

/// The token strings of a file from offset `off`: `k` entries, each a 16-bit little-endian
/// length and that many bytes; with the offset after them; `None` when the file ends first.
pub open spec fn vocab_from(d: Seq<u8>, off: int, k: nat) -> Option<(Seq<Seq<u8>>, int)>
    decreases k,
{
    if k == 0 {
        Some((Seq::empty(), off))
    } else if off < 0 || off + 2 > d.len() {
        None
    } else {
        let start = off + 2;
        let end = start + u16_at(d, off) as int;
        if end > d.len() {
            None
        } else {
            match vocab_from(d, end, (k - 1) as nat) {
                Some((rest, after)) => Some((seq![d.subrange(start, end)] + rest, after)),
                None => None,
            }
        }
    }
}

/// The merges of a file from offset `off`: `n` triples of 32-bit little-endian numbers.
pub open spec fn merge_at(d: Seq<u8>, off: int, i: int) -> (u32, u32, u32) {
    (u32_at(d, off + 12 * i), u32_at(d, off + 12 * i + 4), u32_at(d, off + 12 * i + 8))
}

/// How many bytes the token strings hold together.
pub open spec fn total_bytes(v: Seq<Seq<u8>>) -> nat
    decreases v.len(),
{
    if v.len() == 0 {
        0
    } else {
        total_bytes(v.drop_last()) + v.last().len()
    }
}

/// The vocabulary of a tokenizer as byte strings.
pub open spec fn vocab_view(t: &Tokenizer) -> Seq<Seq<u8>> {
    t.vocab@.map_values(|v: Vec<u8>| v@)
}

/// The merges of a tokenizer as triples.
pub open spec fn merges_view(t: &Tokenizer) -> Seq<(u32, u32, u32)> {
    t.merges@.map_values(|m: Merge| (m.a, m.b, m.result))
}

/// The outcome of reading a tokenizer file, as the specification states it.
pub open spec fn load_spec(d: Seq<u8>) -> Result<(Seq<Seq<u8>>, Seq<(u32, u32, u32)>), TokenizerError> {
    if d.len() < 12 {
        Err(TokenizerError::Truncated)
    } else if u32_at(d, 0) != TOKEN_MAGIC {
        Err(TokenizerError::BadMagic)
    } else if u32_at(d, 4) > MAX_VOCAB || u32_at(d, 8) > MAX_MERGES {
        Err(TokenizerError::TooLarge)
    } else {
        match vocab_from(d, 12, u32_at(d, 4) as nat) {
            None => Err(TokenizerError::Truncated),
            Some((v, off)) => if total_bytes(v) > MAX_VOCAB_BYTES {
                Err(TokenizerError::TooLarge)
            } else if off + 12 * u32_at(d, 8) > d.len() {
                Err(TokenizerError::Truncated)
            } else {
                Ok((v, Seq::new(u32_at(d, 8) as nat, |i: int| merge_at(d, off, i))))
            },
        }
    }
}

/// Reads a tokenizer file.
pub fn load_tokenizer(d: &[u8]) -> (res: Result<Tokenizer, TokenizerError>)
    ensures
        res matches Ok(t) ==> t.wf(),
        match (res, load_spec(d@)) {
            (Ok(t), Ok((v, m))) => vocab_view(&t) == v && merges_view(&t) == m,
            (Err(a), Err(b)) => a == b,
            _ => false,
        },
{
    if d.len() < 12 {
        return Err(TokenizerError::Truncated);
    }
    if get_u32_le(d, 0) != TOKEN_MAGIC {
        return Err(TokenizerError::BadMagic);
    }
    let vocab_size = get_u32_le(d, 4);
    let n_merges = get_u32_le(d, 8);
    if vocab_size as usize > MAX_VOCAB || n_merges as usize > MAX_MERGES {
        return Err(TokenizerError::TooLarge);
    }
    let ghost n = vocab_size as nat;
    let ghost all = vocab_from(d@, 12, n);
    let mut vocab: Vec<Vec<u8>> = Vec::new();
    let mut off: usize = 12;
    let mut total: usize = 0;
    let mut i: u32 = 0;
    while i < vocab_size
        invariant
            i <= vocab_size,
            vocab_size <= MAX_VOCAB,
            n_merges <= MAX_MERGES,
            d@.len() >= 12,
            u32_at(d@, 0) == TOKEN_MAGIC,
            u32_at(d@, 4) == vocab_size,
            u32_at(d@, 8) == n_merges,
            12 <= off <= d@.len(),
            n == vocab_size as nat,
            all == vocab_from(d@, 12, n),
            total == total_bytes(vocab@.map_values(|v: Vec<u8>| v@)),
            total <= 65535 * (i as int),
            vocab@.len() == i,
            all == match vocab_from(d@, off as int, (n - i) as nat) {
                Some((rest, after)) => Some((vocab@.map_values(|v: Vec<u8>| v@) + rest, after)),
                None => None::<(Seq<Seq<u8>>, int)>,
            },
        decreases vocab_size - i,
    {
        if d.len() - off < 2 {
            return Err(TokenizerError::Truncated);
        }
        let len = get_u16_le(d, off) as usize;
        let start = off + 2;
        if d.len() - start < len {
            return Err(TokenizerError::Truncated);
        }
        let end = start + len;
        let mut tokb: Vec<u8> = Vec::new();
        extend(&mut tokb, &d[start..end]);
        let ghost before = vocab@.map_values(|v: Vec<u8>| v@);
        vocab.push(tokb);
        let ghost after = vocab@.map_values(|v: Vec<u8>| v@);
        assert(after =~= before.push(d@.subrange(start as int, end as int)));
        assert(after.drop_last() =~= before);
        proof {
            match vocab_from(d@, end as int, (n - i - 1) as nat) {
                Some((rest, aft)) => {
                    assert(before + (seq![d@.subrange(start as int, end as int)] + rest) =~= after + rest);
                },
                None => {},
            }
        }
        assert(len <= 65535);
        total = total + len;
        off = end;
        i = i + 1;
    }
    assert(vocab@.map_values(|v: Vec<u8>| v@) + Seq::<Seq<u8>>::empty() =~= vocab@.map_values(|v: Vec<u8>| v@));
    if total > MAX_VOCAB_BYTES {
        return Err(TokenizerError::TooLarge);
    }
    let room = d.len() - off;
    if room / 12 < n_merges as usize {
        assert(off + 12 * (n_merges as int) > d@.len()) by (nonlinear_arith)
            requires
                room == d@.len() - off,
                room / 12 < n_merges,
        ;
        return Err(TokenizerError::Truncated);
    }
    assert(off + 12 * (n_merges as int) <= d@.len()) by (nonlinear_arith)
        requires
            room == d@.len() - off,
            room / 12 >= n_merges,
    ;
    let mut merges: Vec<Merge> = Vec::new();
    let mut m: u32 = 0;
    while m < n_merges
        invariant
            m <= n_merges,
            d@.len() <= usize::MAX,
            off as int + 12 * (n_merges as int) <= d@.len(),
            merges@.map_values(|x: Merge| (x.a, x.b, x.result)) =~= Seq::new(
                m as nat,
                |k: int| merge_at(d@, off as int, k),
            ),
        decreases n_merges - m,
    {
        assert(12 * (m as int) + 12 <= 12 * (n_merges as int));
        assert(off as int + 12 * (m as int) + 12 <= d@.len());
        let mm = m as usize;
        assert(mm == m);
        let step = 12 * mm;
        let base = off + step;
        let a = get_u32_le(d, base);
        let b = get_u32_le(d, base + 4);
        let r = get_u32_le(d, base + 8);
        assert(base as int == off as int + 12 * (m as int));
        assert((a, b, r) == merge_at(d@, off as int, m as int));
        let ghost before = merges@.map_values(|x: Merge| (x.a, x.b, x.result));
        merges.push(Merge { a, b, result: r });
        assert(merges@.map_values(|x: Merge| (x.a, x.b, x.result)) =~= before.push((a, b, r)));
        assert(merges@.map_values(|x: Merge| (x.a, x.b, x.result)) =~= Seq::new(
            (m + 1) as nat,
            |k: int| merge_at(d@, off as int, k),
        ));
        m = m + 1;
    }
    Ok(Tokenizer { vocab, merges })
}

impl Tokenizer {
    /// A tokenizer no larger than its limits.
    pub open spec fn wf(&self) -> bool {
        self.vocab@.len() <= MAX_VOCAB && self.merges@.len() <= MAX_MERGES
    }
}

/// The first token from id `i` on whose bytes are `bytes`, or the vocabulary's size.
pub open spec fn first_token_from(v: Seq<Seq<u8>>, bytes: Seq<u8>, i: int) -> int
    decreases v.len() - i,
{
    if i < 0 || i >= v.len() {
        v.len() as int
    } else if v[i] == bytes {
        i
    } else {
        first_token_from(v, bytes, i + 1)
    }
}

/// The token whose bytes are `bytes`: the first such id, or the vocabulary's size when no
/// token has them.
pub fn find_token(t: &Tokenizer, bytes: &[u8]) -> (res: u32)
    requires
        t.wf(),
    ensures
        res == first_token_from(vocab_view(t), bytes@, 0),
{
    let ghost v = vocab_view(t);
    let mut i: usize = 0;
    while i < t.vocab.len()
        invariant
            t.wf(),
            v == vocab_view(t),
            i <= t.vocab@.len(),
            first_token_from(v, bytes@, 0) == first_token_from(v, bytes@, i as int),
        decreases t.vocab@.len() - i,
    {
        assert(v[i as int] == t.vocab@[i as int]@);
        if bytes_eq(t.vocab[i].as_slice(), bytes) {
            return i as u32;
        }
        i += 1;
    }
    t.vocab.len() as u32
}

/// The bytes of token `id`; none for an id outside the vocabulary.
pub fn token_bytes(t: &Tokenizer, id: u32) -> (res: Vec<u8>)
    ensures
        res@ == if (id as int) < vocab_view(t).len() {
            vocab_view(t)[id as int]
        } else {
            Seq::<u8>::empty()
        },
{
    let mut out: Vec<u8> = Vec::new();
    if (id as usize) < t.vocab.len() {
        extend(&mut out, t.vocab[id as usize].as_slice());
    }
    out
}

/// The first merge from index `m` on that joins `a` and `b`, or the number of merges.
pub open spec fn first_merge(ms: Seq<(u32, u32, u32)>, a: u32, b: u32, m: int) -> int
    decreases ms.len() - m,
{
    if m < 0 || m >= ms.len() {
        ms.len() as int
    } else if ms[m].0 == a && ms[m].1 == b {
        m
    } else {
        first_merge(ms, a, b, m + 1)
    }
}

/// The merge of highest priority among the adjacent pairs that start before position `p`,
/// with the leftmost position where it applies; `(ms.len(), 0)` when none applies.
pub open spec fn best_pair(toks: Seq<u32>, ms: Seq<(u32, u32, u32)>, p: int) -> (int, int)
    decreases p,
{
    if p <= 0 {
        (ms.len() as int, 0)
    } else {
        let prev = best_pair(toks, ms, p - 1);
        let r = first_merge(ms, toks[p - 1], toks[p], 0);
        if r < prev.0 {
            (r, p - 1)
        } else {
            prev
        }
    }
}

/// The first merge found is a merge, or the number of merges.
pub proof fn lemma_first_merge_bounds(ms: Seq<(u32, u32, u32)>, a: u32, b: u32, m: int)
    requires
        0 <= m,
    ensures
        m <= first_merge(ms, a, b, m) <= ms.len() || first_merge(ms, a, b, m) == ms.len(),
        first_merge(ms, a, b, m) < ms.len() ==> ms[first_merge(ms, a, b, m)].0 == a && ms[first_merge(
            ms,
            a,
            b,
            m,
        )].1 == b,
    decreases ms.len() - m,
{
    if m < ms.len() && !(ms[m].0 == a && ms[m].1 == b) {
        lemma_first_merge_bounds(ms, a, b, m + 1);
    }
}

/// The best pair found is a merge at a position before `p`, or none.
pub proof fn lemma_best_pair_bounds(toks: Seq<u32>, ms: Seq<(u32, u32, u32)>, p: int)
    ensures
        best_pair(toks, ms, p).0 <= ms.len(),
        best_pair(toks, ms, p).0 < ms.len() ==> 0 <= best_pair(toks, ms, p).1 < p,
    decreases p,
{
    if p > 0 {
        lemma_best_pair_bounds(toks, ms, p - 1);
        lemma_first_merge_bounds(ms, toks[p - 1], toks[p], 0);
    }
}

/// `toks` with the pair at `pos` replaced by `r`.
pub open spec fn apply_merge(toks: Seq<u32>, pos: int, r: u32) -> Seq<u32> {
    toks.take(pos) + seq![r] + toks.skip(pos + 2)
}

/// The tokens after applying, again and again, the merge of highest priority at its
/// leftmost place, until no merge applies.
pub open spec fn bpe_merge(toks: Seq<u32>, ms: Seq<(u32, u32, u32)>) -> Seq<u32>
    decreases toks.len(),
{
    if toks.len() < 2 {
        toks
    } else {
        let (m, pos) = best_pair(toks, ms, toks.len() - 1);
        if m < ms.len() {
            proof {
                lemma_best_pair_bounds(toks, ms, toks.len() - 1);
            }
            bpe_merge(apply_merge(toks, pos, ms[m].2), ms)
        } else {
            toks
        }
    }
}

/// No two adjacent tokens form the pair that any merge joins.
pub open spec fn merge_free(toks: Seq<u32>, ms: Seq<(u32, u32, u32)>) -> bool {
    forall|i: int, m: int|
        #![trigger toks[i], ms[m]]
        0 <= i && i + 1 < toks.len() && 0 <= m < ms.len() ==> !(ms[m].0 == toks[i] && ms[m].1 == toks[i + 1])
}

/// When the search finds no merge from `m` on, none joins `a` and `b`.
proof fn lemma_first_merge_none(ms: Seq<(u32, u32, u32)>, a: u32, b: u32, m: int)
    requires
        0 <= m,
        first_merge(ms, a, b, m) >= ms.len(),
    ensures
        forall|k: int| m <= k < ms.len() ==> !(#[trigger] ms[k].0 == a && ms[k].1 == b),
    decreases ms.len() - m,
{
    if m < ms.len() {
        lemma_first_merge_none(ms, a, b, m + 1);
    }
}

/// The best pair's merge comes no later than the first merge of any pair before `p`.
proof fn lemma_best_pair_min(toks: Seq<u32>, ms: Seq<(u32, u32, u32)>, p: int, q: int)
    requires
        0 <= q < p,
    ensures
        best_pair(toks, ms, p).0 <= first_merge(ms, toks[q], toks[q + 1], 0),
    decreases p,
{
    if q < p - 1 {
        lemma_best_pair_min(toks, ms, p - 1, q);
    }
}

/// Merging stops only where no merge applies: no two adjacent tokens of the result form the
/// pair that any merge joins.
pub proof fn law_bpe_fixpoint(toks: Seq<u32>, ms: Seq<(u32, u32, u32)>)
    ensures
        merge_free(bpe_merge(toks, ms), ms),
    decreases toks.len(),
{
    if toks.len() >= 2 {
        let (m, pos) = best_pair(toks, ms, toks.len() - 1);
        lemma_best_pair_bounds(toks, ms, toks.len() - 1);
        if m < ms.len() {
            law_bpe_fixpoint(apply_merge(toks, pos, ms[m].2), ms);
        } else {
            assert forall|i: int, k: int|
                #![trigger toks[i], ms[k]]
                0 <= i && i + 1 < toks.len() && 0 <= k < ms.len() implies !(ms[k].0 == toks[i] && ms[k].1 == toks[i + 1]) by {
                lemma_best_pair_min(toks, ms, toks.len() - 1, i);
                lemma_first_merge_none(ms, toks[i], toks[i + 1], 0);
            }
        }
    }
}

/// The tokens a text is encoded to hold no two adjacent ones that a merge joins.
pub proof fn law_encode_merge_free(v: Seq<Seq<u8>>, ms: Seq<(u32, u32, u32)>, text: Seq<u8>, max_tokens: nat)
    ensures
        merge_free(encode_spec(v, ms, text, max_tokens), ms),
{
    if text.len() > 0 {
        let r = bpe_merge(initial_tokens(v, text), ms);
        law_bpe_fixpoint(initial_tokens(v, text), ms);
        let e = r.take(min(r.len() as int, max_tokens as int));
        assert forall|i: int, k: int|
            #![trigger e[i], ms[k]]
            0 <= i && i + 1 < e.len() && 0 <= k < ms.len() implies !(ms[k].0 == e[i] && ms[k].1 == e[i + 1]) by {
            assert(e[i] == r[i] && e[i + 1] == r[i + 1]);
        }
    }
}

/// The token each byte of the text starts as (token 0 for a byte no token stands for); at
/// most `MAX_TEXT` bytes are read.
pub open spec fn initial_tokens(v: Seq<Seq<u8>>, text: Seq<u8>) -> Seq<u32> {
    Seq::new(
        min(text.len() as int, MAX_TEXT as int) as nat,
        |i: int|
            {
                let id = first_token_from(v, seq![text[i]], 0);
                if id < v.len() {
                    id as u32
                } else {
                    0u32
                }
            },
    )
}

/// The encoding of a text: its merged tokens, at most `max_tokens` of them.
pub open spec fn encode_spec(v: Seq<Seq<u8>>, ms: Seq<(u32, u32, u32)>, text: Seq<u8>, max_tokens: nat) -> Seq<u32> {
    if text.len() == 0 {
        Seq::empty()
    } else {
        let r = bpe_merge(initial_tokens(v, text), ms);
        r.take(min(r.len() as int, max_tokens as int))
    }
}

/// The first merge below `bound` that joins `a` and `b`, or `bound`.
fn first_merge_below(t: &Tokenizer, a: u32, b: u32, bound: usize) -> (res: usize)
    requires
        bound <= t.merges@.len(),
    ensures
        res == min(first_merge(merges_view(t), a, b, 0), bound as int),
{
    let ghost ms = merges_view(t);
    let mut m: usize = 0;
    while m < bound
        invariant
            bound <= t.merges@.len(),
            ms == merges_view(t),
            m <= bound,
            first_merge(ms, a, b, 0) == first_merge(ms, a, b, m as int),
        decreases bound - m,
    {
        assert(ms[m as int] == (t.merges@[m as int].a, t.merges@[m as int].b, t.merges@[m as int].result));
        if t.merges[m].a == a && t.merges[m].b == b {
            return m;
        }
        m += 1;
    }
    proof {
        lemma_first_merge_bounds(ms, a, b, m as int);
    }
    bound
}

/// Encodes a text: each byte becomes its token, then merges apply, the one of highest
/// priority first, at its leftmost place, until none applies; at most `max_tokens` tokens
/// are kept.
pub fn bpe_encode(t: &Tokenizer, text: &[u8], max_tokens: usize) -> (res: Vec<u32>)
    requires
        t.wf(),
    ensures
        res@ == encode_spec(vocab_view(t), merges_view(t), text@, max_tokens as nat),
{
    let ghost v = vocab_view(t);
    let ghost ms = merges_view(t);
    if text.len() == 0 {
        return Vec::new();
    }
    let n = if text.len() < MAX_TEXT {
        text.len()
    } else {
        MAX_TEXT
    };
    let mut toks: Vec<u32> = Vec::new();
    let mut i: usize = 0;
    while i < n
        invariant
            t.wf(),
            v == vocab_view(t),
            n == min(text@.len() as int, MAX_TEXT as int),
            i <= n,
            toks@ == initial_tokens(v, text@).take(i as int),
        decreases n - i,
    {
        let one = &text[i..i + 1];
        assert(one@ =~= seq![text@[i as int]]);
        let id = find_token(t, one);
        let tk = if (id as usize) < t.vocab.len() {
            id
        } else {
            0
        };
        toks.push(tk);
        assert(toks@ =~= initial_tokens(v, text@).take(i + 1));
        i += 1;
    }
    assert(toks@ =~= initial_tokens(v, text@));
    let ghost init = toks@;
    loop
        invariant
            t.wf(),
            ms == merges_view(t),
            bpe_merge(toks@, ms) == bpe_merge(init, ms),
        ensures
            bpe_merge(toks@, ms) == bpe_merge(init, ms),
            bpe_merge(toks@, ms) == toks@,
        decreases toks@.len(),
    {
        let mut best_m: usize = t.merges.len();
        let mut best_pos: usize = 0;
        let mut pos: usize = 0;
        while toks.len() >= 2 && pos < toks.len() - 1
            invariant
                t.wf(),
                ms == merges_view(t),
                pos < toks@.len() || (pos == 0 && toks@.len() == 0),
                best_m <= t.merges@.len(),
                (best_m as int, best_pos as int) == best_pair(toks@, ms, pos as int),
            decreases toks@.len() - pos,
        {
            let r = first_merge_below(t, toks[pos], toks[pos + 1], best_m);
            if r < best_m {
                best_m = r;
                best_pos = pos;
            }
            pos += 1;
        }
        proof {
            lemma_best_pair_bounds(toks@, ms, pos as int);
        }
        if best_m >= t.merges.len() || toks.len() < 2 {
            proof {
                if toks@.len() >= 2 {
                    assert(pos as int == toks@.len() - 1);
                }
            }
            break;
        }
        assert(pos as int == toks@.len() - 1);
        let ghost before = toks@;
        let r = t.merges[best_m].result;
        assert(ms[best_m as int].2 == r);
        toks.set(best_pos, r);
        toks.remove(best_pos + 1);
        assert(toks@ =~= apply_merge(before, best_pos as int, r));
    }
    let keep = if toks.len() < max_tokens {
        toks.len()
    } else {
        max_tokens
    };
    toks.truncate(keep);
    toks
}

} // verus!
