//! Line, word and byte counts of a stream fed in chunks, and the line that reports them.

use vstd::prelude::*;
use crate::bytes::extend;
use crate::numfmt::{dec_digits, format_u64};

verus! {

/// A space, newline, tab or carriage return: what separates words.
pub open spec fn is_ws(c: u8) -> bool {
    c == 32 || c == 10 || c == 9 || c == 13
}

/// The counts for the bytes `m`: newlines, words (runs of bytes that are not white space),
/// and whether `m` ends inside a word.
pub open spec fn counts(m: Seq<u8>) -> (nat, nat, bool)
    decreases m.len(),
{
    if m.len() == 0 {
        (0, 0, false)
    } else {
        let (l, w, in_word) = counts(m.drop_last());
        let c = m.last();
        let l2 = if c == 10 {
            l + 1
        } else {
            l
        };
        if is_ws(c) {
            (l2, w, false)
        } else if !in_word {
            (l2, w + 1, true)
        } else {
            (l2, w, true)
        }
    }
}

/// There are no more lines or words than bytes.
pub proof fn lemma_counts_bound(m: Seq<u8>)
    ensures
        counts(m).0 <= m.len(),
        counts(m).1 <= m.len(),
    decreases m.len(),
{
    if m.len() > 0 {
        lemma_counts_bound(m.drop_last());
    }
}

/// How many newline bytes `m` holds.
pub open spec fn newline_count(m: Seq<u8>) -> nat
    decreases m.len(),
{
    if m.len() == 0 {
        0
    } else {
        newline_count(m.drop_last()) + if m.last() == 10 {
            1nat
        } else {
            0nat
        }
    }
}

/// How many words `m` holds: the positions of bytes other than space, tab, carriage return
/// and newline that come first or right after one of those four, each the start of a
/// maximal run of such bytes.
pub open spec fn word_starts(m: Seq<u8>) -> nat
    decreases m.len(),
{
    if m.len() == 0 {
        0
    } else {
        let i = m.len() - 1;
        let c = m[i];
        let starts = !(c == 32 || c == 9 || c == 13 || c == 10) && (i == 0 || m[i - 1] == 32 || m[i - 1] == 9
            || m[i - 1] == 13 || m[i - 1] == 10);
        word_starts(m.drop_last()) + if starts {
            1nat
        } else {
            0nat
        }
    }
}

/// What the counts are: the lines are the newline bytes, the words are the maximal runs of
/// bytes other than space, tab, carriage return and newline (so each of those four, a
/// newline too, ends a word), and the stream ends inside a word exactly when its last byte is
/// none of the four.
pub proof fn law_counts(m: Seq<u8>)
    ensures
        counts(m).0 == newline_count(m),
        counts(m).1 == word_starts(m),
        counts(m).2 == (m.len() > 0 && !(m.last() == 32 || m.last() == 9 || m.last() == 13 || m.last() == 10)),
    decreases m.len(),
{
    if m.len() > 0 {
        law_counts(m.drop_last());
        if m.len() > 1 {
            assert(m.drop_last().last() == m[m.len() - 2]);
        }
    }
}

/// The running counts of a stream.
pub struct WordCount {
    pub lines: u64,
    pub words: u64,
    pub bytes: u64,
    pub in_word: bool,
    /// Every byte fed so far.
    pub fed: Ghost<Seq<u8>>,
}

impl WordCount {
    pub open spec fn wf(&self) -> bool {
        let (l, w, iw) = counts(self.fed@);
        &&& self.lines == l
        &&& self.words == w
        &&& self.in_word == iw
        &&& self.bytes == self.fed@.len()
    }

    /// Counts of nothing.
    pub fn new() -> (res: WordCount)
        ensures
            res.wf(),
            res.fed@ == Seq::<u8>::empty(),
    {
        WordCount { lines: 0, words: 0, bytes: 0, in_word: false, fed: Ghost(Seq::empty()) }
    }

    /// Counts the bytes of `chunk` as well.
    pub fn feed(&mut self, chunk: &[u8])
        requires
            old(self).wf(),
            old(self).bytes + chunk@.len() <= u64::MAX,
        ensures
            final(self).wf(),
            final(self).fed@ == old(self).fed@ + chunk@,
    {
        let ghost f0 = self.fed@;
        let mut i: usize = 0;
        assert(f0 + chunk@.take(0) =~= f0);
        while i < chunk.len()
            invariant
                i <= chunk@.len(),
                f0.len() + chunk@.len() <= u64::MAX,
                ({
                    let m = f0 + chunk@.take(i as int);
                    let (l, w, iw) = counts(m);
                    &&& self.lines == l
                    &&& self.words == w
                    &&& self.in_word == iw
                    &&& self.bytes == m.len()
                }),
            decreases chunk@.len() - i,
        {
            let ghost m = f0 + chunk@.take(i as int);
            let ghost m2 = f0 + chunk@.take(i + 1);
            assert(m2.drop_last() =~= m);
            proof {
                lemma_counts_bound(m);
            }
            let c = chunk[i];
            if c == 10 {
                self.lines = self.lines + 1;
            }
            if c == 32 || c == 10 || c == 9 || c == 13 {
                self.in_word = false;
            } else if !self.in_word {
                self.in_word = true;
                self.words = self.words + 1;
            }
            self.bytes = self.bytes + 1;
            i += 1;
        }
        assert(chunk@.take(chunk@.len() as int) =~= chunk@);
        self.fed = Ghost(f0 + chunk@);
    }
}

/// A count right-aligned in a column of eight (longer numbers take the room they need).
pub open spec fn column(n: nat) -> Seq<u8> {
    let d = dec_digits(n);
    Seq::new(if d.len() < 8 { (8 - d.len()) as nat } else { 0 }, |i: int| 32u8) + d
}

/// The report: lines, words and bytes in columns, then a newline.
pub open spec fn report(lines: nat, words: nat, bytes: nat) -> Seq<u8> {
    column(lines) + column(words) + column(bytes) + seq![10u8]
}

/// Appends one count in its column.
fn push_column(out: &mut Vec<u8>, n: u64)
    ensures
        final(out)@ == old(out)@ + column(n as nat),
{
    let d = format_u64(n);
    let ghost o0 = out@;
    let mut pad: usize = 0;
    while pad + d.len() < 8
        invariant
            d@.len() <= 20,
            pad + d@.len() <= 8 || pad == 0,
            out@ == o0 + Seq::new(pad as nat, |i: int| 32u8),
        decreases 8 - pad,
    {
        out.push(32u8);
        assert(out@ =~= o0 + Seq::new((pad + 1) as nat, |i: int| 32u8));
        pad += 1;
    }
    let ghost spaces = Seq::new(pad as nat, |i: int| 32u8);
    extend(out, d.as_slice());
    assert(spaces =~= Seq::new(if d@.len() < 8 { (8 - d@.len()) as nat } else { 0 }, |i: int| 32u8));
}

/// The line the tool prints for its counts.
pub fn format_counts(lines: u64, words: u64, bytes: u64) -> (res: Vec<u8>)
    ensures
        res@ == report(lines as nat, words as nat, bytes as nat),
{
    let mut out: Vec<u8> = Vec::new();
    push_column(&mut out, lines);
    push_column(&mut out, words);
    push_column(&mut out, bytes);
    out.push(10u8);
    assert(out@ =~= report(lines as nat, words as nat, bytes as nat));
    out
}

/// A counter holds the counts of everything fed to it, whatever the chunks were: its lines
/// are the newline bytes fed, its words the maximal runs of bytes other than space, tab,
/// carriage return and newline, and its bytes all bytes fed.
pub proof fn law_counter_state(w: WordCount)
    requires
        w.wf(),
    ensures
        w.lines == newline_count(w.fed@),
        w.words == word_starts(w.fed@),
        w.bytes == w.fed@.len(),
{
    law_counts(w.fed@);
}

} // verus!
