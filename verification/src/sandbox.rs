//! The sandbox launcher's plan: from its command line, the directory to confine the child
//! to, the user to become, and the command with its arguments, as C strings; and how the
//! child's end is reported.

use vstd::prelude::*;
use crate::bytes::{extend, make_cstr};
use crate::http::{lit, lit_bytes};
use crate::numfmt::{all_digits, digits_value, is_digit_exec, dec_digits, format_u32, lemma_wrapping_digit_step,
    lemma_take_step};
use crate::cmdline::{arg_count, arg_count_of};
use crate::portscan::{fields, get_arg, lemma_fields_len};

verus! {

/// The size of each buffer a path or argument is copied into, its zero byte included.
pub const CSTR_CAP: usize = 256;
/// How many arguments after the command are passed on at most.
pub const MAX_EXTRA_ARGS: usize = 14;

/// A user id as given: its digits read modulo 2^32; `None` when a byte is not a digit (an
/// empty id is user 0).
pub open spec fn uid_spec(s: Seq<u8>) -> Option<u32> {
    if all_digits(s) {
        Some((digits_value(s) % 0x1_0000_0000) as u32)
    } else {
        None
    }
}

/// Reads a user id.
pub fn parse_uid(s: &[u8]) -> (res: Option<u32>)
    ensures
        res == uid_spec(s@),
{
    let mut uid: u32 = 0;
    let mut i: usize = 0;
    while i < s.len()
        invariant
            i <= s@.len(),
            all_digits(s@.take(i as int)),
            uid == digits_value(s@.take(i as int)) % 0x1_0000_0000,
        decreases s@.len() - i,
    {
        if !is_digit_exec(s[i]) {
            return None;
        }
        let d = (s[i] - 48) as u32;
        proof {
            lemma_take_step(s@, i as int);
            lemma_wrapping_digit_step(digits_value(s@.take(i as int)) as int, d as int, 0x1_0000_0000);
        }
        uid = uid.wrapping_mul(10).wrapping_add(d);
        assert(s@.take(i + 1) =~= s@.take(i as int).push(s@[i as int]));
        i += 1;
    }
    assert(s@.take(s@.len() as int) =~= s@);
    Some(uid)
}

/// The arguments passed on after the command: the fields from `i` on that fit a buffer,
/// at most `room` of them (a field too long is skipped).
pub open spec fn extra_args(fs: Seq<Seq<u8>>, i: int, room: nat) -> Seq<Seq<u8>>
    decreases fs.len() - i,
{
    if i < 0 || i >= fs.len() || room == 0 {
        Seq::empty()
    } else if fs[i].len() < CSTR_CAP {
        seq![fs[i].push(0u8)] + extra_args(fs, i + 1, (room - 1) as nat)
    } else {
        extra_args(fs, i + 1, room)
    }
}

/// What the launcher does.
pub enum SandboxPlan {
    /// Fewer than two arguments: print the usage text and stop.
    Usage,
    /// The user id is not a number.
    BadUid,
    /// The directory does not fit a buffer.
    ChrootTooLong,
    /// The command does not fit a buffer.
    CmdTooLong,
    /// Run `cmd` (with `argv`, the command first) confined to `chroot` as user `uid`, after
    /// printing `banner`.
    Run { chroot: Vec<u8>, uid: u32, cmd: Vec<u8>, argv: Vec<Vec<u8>>, banner: Vec<u8> },
}

/// The line printed before the child starts.
pub open spec fn banner_spec(chroot: Seq<u8>, uid: u32, cmd: Seq<u8>) -> Seq<u8> {
    lit("[sandbox] chroot=") + chroot + lit(" uid=") + dec_digits(uid as nat) + lit(" cmd=") + cmd + lit("\n")
}

/// The command to run: the third argument, `/bin/sh` by default.
pub open spec fn command_of(fs: Seq<Seq<u8>>) -> Seq<u8> {
    if fs.len() > 3 {
        fs[3]
    } else {
        lit("/bin/sh")
    }
}

/// Reads the command line (as `/proc/self/cmdline` holds it) into the launcher's plan.
pub fn plan(cmdline: &[u8]) -> (res: SandboxPlan)
    ensures
        ({
            let fs = fields(cmdline@);
            match res {
                SandboxPlan::Usage => fs.len() < 3,
                SandboxPlan::BadUid => fs.len() >= 3 && uid_spec(fs[2]) is None,
                SandboxPlan::ChrootTooLong => fs.len() >= 3 && uid_spec(fs[2]) is Some && fs[1].len() >= CSTR_CAP,
                SandboxPlan::CmdTooLong => fs.len() >= 3 && uid_spec(fs[2]) is Some && fs[1].len() < CSTR_CAP
                    && command_of(fs).len() >= CSTR_CAP,
                SandboxPlan::Run { chroot, uid, cmd, argv, banner } => {
                    &&& fs.len() >= 3
                    &&& uid_spec(fs[2]) == Some(uid)
                    &&& fs[1].len() < CSTR_CAP
                    &&& command_of(fs).len() < CSTR_CAP
                    &&& chroot@ == fs[1].push(0u8)
                    &&& cmd@ == command_of(fs).push(0u8)
                    &&& argv@.map_values(|a: Vec<u8>| a@) == seq![command_of(fs).push(0u8)] + extra_args(
                        fs,
                        4,
                        MAX_EXTRA_ARGS as nat,
                    )
                    &&& banner@ == banner_spec(fs[1], uid, command_of(fs))
                },
            }
        }),
{
    let ghost fs = fields(cmdline@);
    let count = arg_count_of(cmdline);
    proof {
        lemma_fields_len(cmdline@);
    }
    if count < 3 {
        return SandboxPlan::Usage;
    }
    let dir = match get_arg(cmdline, 1) {
        Some(a) => a,
        None => Vec::new(),
    };
    let uid_text = match get_arg(cmdline, 2) {
        Some(a) => a,
        None => Vec::new(),
    };
    let uid = match parse_uid(uid_text.as_slice()) {
        Some(u) => u,
        None => {
            return SandboxPlan::BadUid;
        },
    };
    let cmd_text = match get_arg(cmdline, 3) {
        Some(a) => a,
        None => lit_bytes("/bin/sh"),
    };
    let chroot = match make_cstr(dir.as_slice(), CSTR_CAP) {
        Some(c) => c,
        None => {
            return SandboxPlan::ChrootTooLong;
        },
    };
    let cmd = match make_cstr(cmd_text.as_slice(), CSTR_CAP) {
        Some(c) => c,
        None => {
            return SandboxPlan::CmdTooLong;
        },
    };
    let mut argv: Vec<Vec<u8>> = Vec::new();
    let mut first: Vec<u8> = Vec::new();
    extend(&mut first, cmd.as_slice());
    argv.push(first);
    let ghost head = seq![command_of(fs).push(0u8)];
    assert(argv@.map_values(|a: Vec<u8>| a@) =~= head);
    let mut idx: usize = 4;
    while idx < count && argv.len() < 15
        invariant
            count == fs.len(),
            fs == fields(cmdline@),
            4 <= idx,
            1 <= argv@.len() <= 15,
            head + extra_args(fs, 4, MAX_EXTRA_ARGS as nat) == argv@.map_values(|a: Vec<u8>| a@) + extra_args(
                fs,
                idx as int,
                (15 - argv@.len()) as nat,
            ),
        decreases count - idx,
    {
        let ghost before = argv@.map_values(|a: Vec<u8>| a@);
        let ghost room = (15 - argv@.len()) as nat;
        match get_arg(cmdline, idx) {
            Some(a) => {
                match make_cstr(a.as_slice(), CSTR_CAP) {
                    Some(c) => {
                        argv.push(c);
                        assert(argv@.map_values(|a: Vec<u8>| a@) =~= before.push(fs[idx as int].push(0u8)));
                        assert(before + extra_args(fs, idx as int, room) =~= argv@.map_values(|a: Vec<u8>| a@)
                            + extra_args(fs, idx + 1, (room - 1) as nat));
                    },
                    None => {},
                }
            },
            None => {},
        }
        idx += 1;
    }
    proof {
        let got = argv@.map_values(|a: Vec<u8>| a@);
        assert(extra_args(fs, idx as int, (15 - argv@.len()) as nat) =~= Seq::<Seq<u8>>::empty());
        assert(got + Seq::<Seq<u8>>::empty() =~= got);
    }
    let mut banner = lit_bytes("[sandbox] chroot=");
    extend(&mut banner, dir.as_slice());
    extend(&mut banner, " uid=".as_bytes());
    extend(&mut banner, format_u32(uid).as_slice());
    extend(&mut banner, " cmd=".as_bytes());
    extend(&mut banner, cmd_text.as_slice());
    extend(&mut banner, "\n".as_bytes());
    SandboxPlan::Run { chroot, uid, cmd, argv, banner }
}

/// How the child ended, from the status `waitpid` gives: its exit code, or the signal that
/// killed it.
pub open spec fn status_line_spec(status: i32) -> Seq<u8> {
    if status & 0x7f == 0 {
        lit("[sandbox] child exited with status ") + dec_digits(((status >> 8i32) & 0xff) as nat) + lit("\n")
    } else {
        lit("[sandbox] child killed by signal ") + dec_digits((status & 0x7f) as nat) + lit("\n")
    }
}

/// The line that reports how the child ended.
pub fn status_line(status: i32) -> (res: Vec<u8>)
    ensures
        res@ == status_line_spec(status),
{
    if status & 0x7f == 0 {
        let code = (status >> 8i32) & 0xff;
        assert(0 <= code <= 255) by (bit_vector)
            requires
                code == (status >> 8i32) & 0xff,
        ;
        let mut out = lit_bytes("[sandbox] child exited with status ");
        extend(&mut out, format_u32(code as u32).as_slice());
        extend(&mut out, "\n".as_bytes());
        out
    } else {
        let sig = status & 0x7f;
        assert(0 <= sig <= 127) by (bit_vector)
            requires
                sig == status & 0x7f,
        ;
        let mut out = lit_bytes("[sandbox] child killed by signal ");
        extend(&mut out, format_u32(sig as u32).as_slice());
        extend(&mut out, "\n".as_bytes());
        out
    }
}

/// The usage text.
pub fn usage_text() -> (res: Vec<u8>)
    ensures
        res@ == lit("tiny-sandbox: chroot + privilege drop + execve\n\n") + lit(
            "Usage: tiny-sandbox <chroot-dir> <uid> [command] [args...]\n\n",
        ) + lit("Steps performed:\n") + lit("  1. fork() child process\n") + lit("  2. chroot() to <chroot-dir>\n")
            + lit("  3. chdir() to /\n") + lit("  4. setgid(uid) + setuid(uid) to drop privileges\n") + lit(
            "  5. execve() the command (default: /bin/sh)\n\n",
        ) + lit("Example: sudo ./tiny-sandbox /tmp/jail 1000 /bin/ls /\n\n") + lit(
            "Note: chroot requires root privileges.\n",
        ) + lit("Critical ordering: chroot -> chdir -> setgid -> setuid -> execve\n") + lit(
            "(setgid before setuid, because after setuid we lose privilege to setgid)\n",
        ),
{
    let mut out = lit_bytes("tiny-sandbox: chroot + privilege drop + execve\n\n");
    extend(&mut out, "Usage: tiny-sandbox <chroot-dir> <uid> [command] [args...]\n\n".as_bytes());
    extend(&mut out, "Steps performed:\n".as_bytes());
    extend(&mut out, "  1. fork() child process\n".as_bytes());
    extend(&mut out, "  2. chroot() to <chroot-dir>\n".as_bytes());
    extend(&mut out, "  3. chdir() to /\n".as_bytes());
    extend(&mut out, "  4. setgid(uid) + setuid(uid) to drop privileges\n".as_bytes());
    extend(&mut out, "  5. execve() the command (default: /bin/sh)\n\n".as_bytes());
    extend(&mut out, "Example: sudo ./tiny-sandbox /tmp/jail 1000 /bin/ls /\n\n".as_bytes());
    extend(&mut out, "Note: chroot requires root privileges.\n".as_bytes());
    extend(&mut out, "Critical ordering: chroot -> chdir -> setgid -> setuid -> execve\n".as_bytes());
    extend(&mut out, "(setgid before setuid, because after setuid we lose privilege to setgid)\n".as_bytes());
    out
}

} // verus!
