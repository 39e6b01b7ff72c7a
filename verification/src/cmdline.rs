//! Command lines as `/proc/self/cmdline` holds them (NUL-separated fields), and what the
//! small tools make of them: the multi-call binary's applet and `echo`, and the inputs of
//! `cat`.

use vstd::prelude::*;
use crate::bytes::{scan_until, lemma_scan_until_bounds, extend, bytes_eq};
use crate::http::{lit, lit_bytes};

verus! {

/// Where the first field (the program's name) ends.
pub open spec fn argv0_end(cmdline: Seq<u8>) -> int {
    scan_until(cmdline, 0, |c: u8| c == 0)
}

/// The non-empty NUL-separated fields from position `i` on.
pub open spec fn words_from(cmdline: Seq<u8>, i: int) -> Seq<Seq<u8>>
    decreases cmdline.len() - i,
{
    if i < 0 || i >= cmdline.len() {
        Seq::empty()
    } else {
        let e = scan_until(cmdline, i, |c: u8| c == 0);
        proof {
            lemma_scan_until_bounds(cmdline, i, |c: u8| c == 0);
        }
        let rest = if e < cmdline.len() {
            words_from(cmdline, e + 1)
        } else {
            Seq::empty()
        };
        if e > i {
            seq![cmdline.subrange(i, e)] + rest
        } else {
            rest
        }
    }
}

/// The non-empty arguments after the program's name.
pub open spec fn args_of(cmdline: Seq<u8>) -> Seq<Seq<u8>> {
    words_from(cmdline, argv0_end(cmdline) + 1)
}

/// The fields joined by single spaces.
pub open spec fn join(ws: Seq<Seq<u8>>) -> Seq<u8>
    decreases ws.len(),
{
    if ws.len() == 0 {
        Seq::empty()
    } else if ws.len() == 1 {
        ws[0]
    } else {
        join(ws.drop_last()) + seq![32u8] + ws.last()
    }
}

/// Where the file name of a path starts: just after its last `/`, or 0.
pub open spec fn base_start(s: Seq<u8>) -> int
    decreases s.len(),
{
    if s.len() == 0 {
        0
    } else if s.last() == 47 {
        s.len() as int
    } else {
        base_start(s.drop_last())
    }
}

/// The name the program was invoked under: the file name of its first field.
pub open spec fn invoked_name(cmdline: Seq<u8>) -> Seq<u8> {
    let a = cmdline.take(argv0_end(cmdline));
    a.skip(base_start(a))
}

/// The end of the field that starts at `start`.
fn field_end(cmdline: &[u8], start: usize) -> (res: usize)
    requires
        start <= cmdline@.len(),
    ensures
        res == scan_until(cmdline@, start as int, |c: u8| c == 0),
        start <= res <= cmdline@.len(),
{
    let mut i = start;
    while i < cmdline.len() && cmdline[i] != 0
        invariant
            start <= i <= cmdline@.len(),
            scan_until(cmdline@, start as int, |c: u8| c == 0) == scan_until(cmdline@, i as int, |c: u8| c == 0),
        decreases cmdline@.len() - i,
    {
        i += 1;
    }
    i
}

/// The non-empty arguments after the program's name, in order.
pub fn args(cmdline: &[u8]) -> (res: Vec<Vec<u8>>)
    ensures
        res@.map_values(|a: Vec<u8>| a@) == args_of(cmdline@),
{
    let e0 = field_end(cmdline, 0);
    let mut out: Vec<Vec<u8>> = Vec::new();
    if e0 >= cmdline.len() {
        assert(out@.map_values(|a: Vec<u8>| a@) =~= args_of(cmdline@));
        return out;
    }
    let mut pos = e0 + 1;
    let ghost all = args_of(cmdline@);
    assert(all == out@.map_values(|a: Vec<u8>| a@) + words_from(cmdline@, pos as int));
    while pos < cmdline.len()
        invariant
            pos <= cmdline@.len(),
            all == out@.map_values(|a: Vec<u8>| a@) + words_from(cmdline@, pos as int),
        decreases cmdline@.len() - pos,
    {
        let e = field_end(cmdline, pos);
        let ghost before = out@.map_values(|a: Vec<u8>| a@);
        if e > pos {
            let mut w: Vec<u8> = Vec::new();
            extend(&mut w, &cmdline[pos..e]);
            out.push(w);
        }
        let ghost after = out@.map_values(|a: Vec<u8>| a@);
        let next: usize = if e < cmdline.len() {
            e + 1
        } else {
            cmdline.len()
        };
        proof {
            if e > pos {
                assert(after =~= before.push(cmdline@.subrange(pos as int, e as int)));
                assert(before + words_from(cmdline@, pos as int) =~= after + words_from(cmdline@, next as int));
            } else {
                assert(after =~= before);
            }
        }
        pos = next;
    }
    assert(out@.map_values(|a: Vec<u8>| a@) + words_from(cmdline@, pos as int) =~= out@.map_values(
        |a: Vec<u8>| a@,
    ));
    out
}

/// The name the program was invoked under (the file name of its first field).
pub fn get_argv0(cmdline: &[u8]) -> (res: Vec<u8>)
    ensures
        res@ == invoked_name(cmdline@),
{
    let end = field_end(cmdline, 0);
    let ghost a = cmdline@.take(end as int);
    let mut start: usize = 0;
    let mut i: usize = 0;
    while i < end
        invariant
            i <= end <= cmdline@.len(),
            a == cmdline@.take(end as int),
            start == base_start(a.take(i as int)),
        decreases end - i,
    {
        assert(a.take(i + 1).drop_last() =~= a.take(i as int));
        if cmdline[i] == 47 {
            start = i + 1;
        }
        i += 1;
    }
    assert(a.take(end as int) =~= a);
    proof {
        lemma_base_start_bound(a);
    }
    let mut out: Vec<u8> = Vec::new();
    extend(&mut out, &cmdline[start..end]);
    assert(out@ =~= a.skip(start as int));
    out
}

/// The file name starts within the path.
pub proof fn lemma_base_start_bound(s: Seq<u8>)
    ensures
        0 <= base_start(s) <= s.len(),
    decreases s.len(),
{
    if s.len() > 0 {
        lemma_base_start_bound(s.drop_last());
    }
}

/// The applets of the multi-call binary.
#[derive(PartialEq, Eq, Structural, Clone, Copy)]
pub enum Applet {
    Yes,
    True,
    False,
    Echo,
    /// Any other name: print what is available.
    Usage,
}

/// The applet a name selects.
pub open spec fn applet_spec(name: Seq<u8>) -> Applet {
    if name == lit("yes") {
        Applet::Yes
    } else if name == lit("true") {
        Applet::True
    } else if name == lit("false") {
        Applet::False
    } else if name == lit("echo") {
        Applet::Echo
    } else {
        Applet::Usage
    }
}

/// The applet to run, by the name the program was invoked under.
pub fn applet_for(name: &[u8]) -> (res: Applet)
    ensures
        res == applet_spec(name@),
{
    if bytes_eq(name, "yes".as_bytes()) {
        Applet::Yes
    } else if bytes_eq(name, "true".as_bytes()) {
        Applet::True
    } else if bytes_eq(name, "false".as_bytes()) {
        Applet::False
    } else if bytes_eq(name, "echo".as_bytes()) {
        Applet::Echo
    } else {
        Applet::Usage
    }
}

/// What `echo` prints: its non-empty arguments joined by spaces, then a newline.
pub fn echo_line(cmdline: &[u8]) -> (res: Vec<u8>)
    ensures
        res@ == join(args_of(cmdline@)).push(10u8),
{
    let ws = args(cmdline);
    let ghost all = ws@.map_values(|a: Vec<u8>| a@);
    let mut out: Vec<u8> = Vec::new();
    let mut i: usize = 0;
    while i < ws.len()
        invariant
            i <= ws@.len(),
            all == ws@.map_values(|a: Vec<u8>| a@),
            out@ == join(all.take(i as int)),
        decreases ws@.len() - i,
    {
        let ghost before = out@;
        if i > 0 {
            out.push(32u8);
        }
        extend(&mut out, ws[i].as_slice());
        proof {
            let t = all.take(i + 1);
            assert(t.drop_last() =~= all.take(i as int));
            assert(t.last() == ws@[i as int]@);
            if i == 0 {
                assert(before =~= Seq::<u8>::empty());
                assert(out@ =~= t[0]);
            }
        }
        i += 1;
    }
    assert(all.take(ws@.len() as int) =~= all);
    out.push(10u8);
    out
}

/// What the multi-call binary prints when it does not know the name it was invoked under.
pub fn usage_text() -> (res: Vec<u8>)
    ensures
        res@ == lit("tiny-multicall: BusyBox-style multi-call binary\n") + lit(
            "Available applets: yes, true, false, echo\n",
        ) + lit("Create symlinks to invoke: ln -s tiny-multicall yes\n"),
{
    let mut out = lit_bytes("tiny-multicall: BusyBox-style multi-call binary\n");
    extend(&mut out, "Available applets: yes, true, false, echo\n".as_bytes());
    extend(&mut out, "Create symlinks to invoke: ln -s tiny-multicall yes\n".as_bytes());
    out
}

/// How many arguments a command line holds, the program's name included: one per NUL, and
/// one more when the last field has no NUL after it.
pub open spec fn arg_count(cmdline: Seq<u8>) -> nat
    decreases cmdline.len(),
{
    if cmdline.len() == 0 {
        0
    } else {
        arg_count_nuls(cmdline.drop_last()) + 1
    }
}

/// How many NULs `s` holds.
pub open spec fn arg_count_nuls(s: Seq<u8>) -> nat
    decreases s.len(),
{
    if s.len() == 0 {
        0
    } else {
        arg_count_nuls(s.drop_last()) + if s.last() == 0 {
            1nat
        } else {
            0nat
        }
    }
}

/// How many arguments a command line holds, the program's name included (see `arg_count`).
pub fn arg_count_of(cmdline: &[u8]) -> (res: usize)
    ensures
        res == arg_count(cmdline@),
{
    if cmdline.len() == 0 {
        return 0;
    }
    let mut nuls: usize = 0;
    let mut i: usize = 0;
    while i < cmdline.len() - 1
        invariant
            cmdline@.len() > 0,
            i < cmdline@.len(),
            nuls <= i,
            nuls == arg_count_nuls(cmdline@.take(i as int)),
        decreases cmdline@.len() - i,
    {
        assert(cmdline@.take(i + 1).drop_last() =~= cmdline@.take(i as int));
        if cmdline[i] == 0 {
            nuls += 1;
        }
        i += 1;
    }
    assert(cmdline@.take(i as int) =~= cmdline@.drop_last());
    nuls + 1
}

/// One input of `cat`.
#[derive(PartialEq, Eq)]
pub enum CatInput {
    /// Standard input.
    Stdin,
    /// A file to open, by its path.
    File(Vec<u8>),
    /// A path too long to open: the tool stops with status 1 when it reaches it.
    TooLong,
}

/// The longest path `cat` opens is one byte shorter than this.
pub const MAX_PATH: usize = 256;

/// What `cat` reads, in order: standard input when it has no arguments, else each non-empty
/// argument (`-` for standard input).
pub fn cat_inputs(cmdline: &[u8]) -> (res: Vec<CatInput>)
    ensures
        arg_count(cmdline@) <= 1 ==> res@.len() == 1 && res@[0] is Stdin,
        arg_count(cmdline@) > 1 ==> res@.len() == args_of(cmdline@).len() && forall|i: int|
            0 <= i < res@.len() ==> match (#[trigger] res@[i]) {
                CatInput::Stdin => args_of(cmdline@)[i] == seq![45u8],
                CatInput::TooLong => args_of(cmdline@)[i] != seq![45u8] && args_of(cmdline@)[i].len() >= MAX_PATH,
                CatInput::File(p) => args_of(cmdline@)[i] != seq![45u8] && args_of(cmdline@)[i].len() < MAX_PATH
                    && p@ == args_of(cmdline@)[i],
            },
{
    let mut out: Vec<CatInput> = Vec::new();
    if arg_count_of(cmdline) <= 1 {
        out.push(CatInput::Stdin);
        return out;
    }
    let ws = args(cmdline);
    let ghost all = ws@.map_values(|a: Vec<u8>| a@);
    let mut k: usize = 0;
    while k < ws.len()
        invariant
            k <= ws@.len(),
            all == ws@.map_values(|a: Vec<u8>| a@),
            all == args_of(cmdline@),
            out@.len() == k,
            forall|j: int|
                0 <= j < k ==> match (#[trigger] out@[j]) {
                    CatInput::Stdin => all[j] == seq![45u8],
                    CatInput::TooLong => all[j] != seq![45u8] && all[j].len() >= MAX_PATH,
                    CatInput::File(p) => all[j] != seq![45u8] && all[j].len() < MAX_PATH && p@ == all[j],
                },
        decreases ws@.len() - k,
    {
        let w = &ws[k];
        assert(all[k as int] == w@);
        let dash = w.len() == 1 && w[0] == 45;
        assert(dash == (w@ == seq![45u8])) by {
            if w@ == seq![45u8] {
                assert(w@[0] == seq![45u8][0]);
            }
            if dash {
                assert(w@ =~= seq![45u8]);
            }
        }
        if dash {
            out.push(CatInput::Stdin);
        } else if w.len() >= MAX_PATH {
            out.push(CatInput::TooLong);
        } else {
            let mut p: Vec<u8> = Vec::new();
            extend(&mut p, w.as_slice());
            out.push(CatInput::File(p));
        }
        k += 1;
    }
    out
}

/// What `cat` reports when it cannot open a file.
pub fn cat_error(arg: &[u8]) -> (res: Vec<u8>)
    ensures
        res@ == lit("tiny-cat: ") + arg@ + lit(": No such file or directory\n"),
{
    let mut out = lit_bytes("tiny-cat: ");
    extend(&mut out, arg);
    extend(&mut out, ": No such file or directory\n".as_bytes());
    out
}

} // verus!
