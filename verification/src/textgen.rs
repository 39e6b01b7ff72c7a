//! The integer side of the two text generators: their arguments, the character context the
//! small transformer slides along, the seed of their random generator, the prompt tokens of
//! the GPT-2 runner and how many tokens it may add, and the layout of its weight file.

use vstd::prelude::*;
use crate::bytes::{extend, min};
use crate::http::{lit, lit_bytes};
use crate::numfmt::{all_digits, digits_value, parse_u32, parse_u32_from_slice, digit_prefix_len};
use crate::random::{first_args, tool_args};
use crate::tokenizer::{Tokenizer, bpe_encode, encode_spec, vocab_view, merges_view};

verus! {

/// How many characters the transformer's context holds.
pub const SEQ_LEN: usize = 32;
/// How many bytes of a prompt the transformer keeps.
pub const MAX_PROMPT: usize = 128;

/// The transformer's prompt and how many characters to generate: the first argument (at
/// most `MAX_PROMPT` bytes of it), `hello ` by default; the second argument read as a
/// number, 64 when it is missing, zero or not a number.
pub open spec fn transformer_args_spec(args: Seq<Seq<u8>>) -> (Seq<u8>, u32) {
    let prompt = if args.len() >= 1 {
        args[0].take(min(args[0].len() as int, MAX_PROMPT as int))
    } else {
        lit("hello ")
    };
    let n = if args.len() >= 2 && all_digits(args[1]) && digits_value(args[1]) % 0x1_0000_0000 != 0 {
        (digits_value(args[1]) % 0x1_0000_0000) as u32
    } else {
        64u32
    };
    (prompt, n)
}

/// Reads the transformer's arguments from its command line.
pub fn transformer_args(cmdline: &[u8]) -> (res: (Vec<u8>, u32))
    ensures
        (res.0@, res.1) == transformer_args_spec(tool_args(cmdline@)),
{
    let args = first_args(cmdline);
    let ghost all = tool_args(cmdline@);
    let prompt = if args.len() >= 1 {
        assert(all[0] == args@[0]@);
        let a = args[0].as_slice();
        let n = if a.len() < MAX_PROMPT {
            a.len()
        } else {
            MAX_PROMPT
        };
        let mut p: Vec<u8> = Vec::new();
        extend(&mut p, &a[0..n]);
        assert(p@ =~= all[0].take(min(all[0].len() as int, MAX_PROMPT as int)));
        p
    } else {
        lit_bytes("hello ")
    };
    let mut num: u32 = 64;
    if args.len() >= 2 {
        assert(all[1] == args@[1]@);
        let v = parse_u32_from_slice(args[1].as_slice());
        if v != 0 {
            num = v;
        }
    }
    (prompt, num)
}

/// The characters the transformer looks at: at most `SEQ_LEN` of them, the newest last.
pub struct Context {
    pub tokens: Vec<u8>,
}

impl Context {
    /// A context holding the start of the prompt.
    pub fn new(prompt: &[u8]) -> (res: Context)
        ensures
            res.tokens@ == prompt@.take(min(prompt@.len() as int, SEQ_LEN as int)),
    {
        let n = if prompt.len() > SEQ_LEN {
            SEQ_LEN
        } else {
            prompt.len()
        };
        let mut tokens: Vec<u8> = Vec::new();
        extend(&mut tokens, &prompt[0..n]);
        Context { tokens }
    }

    /// How many characters a forward pass reads: the context's, at least one.
    pub fn run_len(&self) -> (res: usize)
        ensures
            res == if self.tokens@.len() > 0 {
                self.tokens@.len() as int
            } else {
                1
            },
    {
        if self.tokens.len() > 0 {
            self.tokens.len()
        } else {
            1
        }
    }

    /// Appends a generated character; once the context is full, its oldest one leaves.
    pub fn push(&mut self, next: u8)
        requires
            old(self).tokens@.len() <= SEQ_LEN,
        ensures
            final(self).tokens@.len() <= SEQ_LEN,
            final(self).tokens@ == if old(self).tokens@.len() < SEQ_LEN {
                old(self).tokens@.push(next)
            } else {
                old(self).tokens@.drop_first().push(next)
            },
    {
        if self.tokens.len() < SEQ_LEN {
            self.tokens.push(next);
        } else {
            self.tokens.remove(0);
            self.tokens.push(next);
            assert(self.tokens@.len() == SEQ_LEN);
        }
    }
}

/// The context after pushing `gen` onto `start`: the last `SEQ_LEN` characters of both.
pub open spec fn window(s: Seq<u8>) -> Seq<u8> {
    s.skip(if s.len() > SEQ_LEN { s.len() - SEQ_LEN } else { 0 })
}

/// However many characters are generated, the context holds the newest `SEQ_LEN` of the
/// prompt's start and the generated ones: pushing one more is taking the window of the
/// longer text.
pub proof fn law_context_window(s: Seq<u8>, next: u8)
    requires
        s.len() <= SEQ_LEN,
    ensures
        (if s.len() < SEQ_LEN {
            s.push(next)
        } else {
            s.drop_first().push(next)
        }) == window(s.push(next)),
        window(s) == s,
{
    assert(s.skip(0) =~= s);
    if s.len() < SEQ_LEN {
        assert(s.push(next).skip(0) =~= s.push(next));
    } else {
        assert(s.push(next).skip(1) =~= s.drop_first().push(next));
    }
}

/// The seed of the generators' xorshift: the one given, or a fixed one for zero.
pub fn rng_seed(seed: u64) -> (res: u64)
    ensures
        res == if seed == 0 {
            0x1234_5678_9abc_def0u64
        } else {
            seed
        },
        res != 0,
{
    if seed == 0 {
        0x1234_5678_9abc_def0
    } else {
        seed
    }
}

/// The longest path the GPT-2 runner opens (its buffer adds a zero byte).
pub const MAX_PATH: usize = 255;
/// How many bytes of a prompt the GPT-2 runner keeps.
pub const MAX_GPT_PROMPT: usize = 512;

/// The GPT-2 runner's arguments.
pub struct Gpt2Args {
    /// The weight file's path, cut to `MAX_PATH` bytes, with a zero byte; empty when missing.
    pub weights_path: Vec<u8>,
    /// The tokenizer file's path, likewise.
    pub tokenizer_path: Vec<u8>,
    /// The prompt, cut to `MAX_GPT_PROMPT` bytes; empty when missing.
    pub prompt: Vec<u8>,
    /// How many tokens to generate: the leading digits of the fourth argument, 128 when
    /// missing or zero.
    pub n_tokens: u32,
    /// The fifth argument as given (the temperature), if any.
    pub temperature: Option<Vec<u8>>,
}

/// A path argument as the runner keeps it.
pub open spec fn kept_path(a: Seq<u8>) -> Seq<u8> {
    a.take(min(a.len() as int, MAX_PATH as int)).push(0u8)
}

/// Copies a path argument, cut and zero-terminated.
fn keep_path(a: &[u8]) -> (res: Vec<u8>)
    ensures
        res@ == kept_path(a@),
{
    let n = if a.len() < MAX_PATH {
        a.len()
    } else {
        MAX_PATH
    };
    let mut p: Vec<u8> = Vec::new();
    extend(&mut p, &a[0..n]);
    p.push(0u8);
    p
}

/// Reads the GPT-2 runner's arguments from its command line.
pub fn gpt2_args(cmdline: &[u8]) -> (res: Gpt2Args)
    ensures
        ({
            let args = tool_args(cmdline@);
            &&& res.weights_path@ == if args.len() >= 1 {
                kept_path(args[0])
            } else {
                Seq::<u8>::empty()
            }
            &&& res.tokenizer_path@ == if args.len() >= 2 {
                kept_path(args[1])
            } else {
                Seq::<u8>::empty()
            }
            &&& res.prompt@ == if args.len() >= 3 {
                args[2].take(min(args[2].len() as int, MAX_GPT_PROMPT as int))
            } else {
                Seq::<u8>::empty()
            }
            &&& res.n_tokens == if args.len() >= 4 && digits_value(args[3].take(digit_prefix_len(args[3]) as int))
                % 0x1_0000_0000 != 0 {
                (digits_value(args[3].take(digit_prefix_len(args[3]) as int)) % 0x1_0000_0000) as u32
            } else {
                128u32
            }
            &&& match res.temperature {
                Some(t) => args.len() >= 5 && t@ == args[4],
                None => args.len() < 5,
            }
        }),
{
    let args = first_args(cmdline);
    let ghost all = tool_args(cmdline@);
    let weights_path = if args.len() >= 1 {
        assert(all[0] == args@[0]@);
        keep_path(args[0].as_slice())
    } else {
        Vec::new()
    };
    let tokenizer_path = if args.len() >= 2 {
        assert(all[1] == args@[1]@);
        keep_path(args[1].as_slice())
    } else {
        Vec::new()
    };
    let prompt = if args.len() >= 3 {
        assert(all[2] == args@[2]@);
        let a = args[2].as_slice();
        let n = if a.len() < MAX_GPT_PROMPT {
            a.len()
        } else {
            MAX_GPT_PROMPT
        };
        let mut p: Vec<u8> = Vec::new();
        extend(&mut p, &a[0..n]);
        assert(p@ =~= all[2].take(min(all[2].len() as int, MAX_GPT_PROMPT as int)));
        p
    } else {
        Vec::new()
    };
    let mut n_tokens: u32 = 128;
    if args.len() >= 4 {
        assert(all[3] == args@[3]@);
        let v = parse_u32(args[3].as_slice());
        if v > 0 {
            n_tokens = v;
        }
    }
    let temperature = if args.len() >= 5 {
        assert(all[4] == args@[4]@);
        let mut t: Vec<u8> = Vec::new();
        extend(&mut t, args[4].as_slice());
        Some(t)
    } else {
        None
    };
    Gpt2Args { weights_path, tokenizer_path, prompt, n_tokens, temperature }
}

/// The token the runner starts from when it has no prompt (`<|endoftext|>`).
pub const END_OF_TEXT: u32 = 50256;
/// How many prompt tokens the runner keeps.
pub const MAX_PROMPT_TOKENS: usize = 2048;
/// How many positions the model has.
pub const MAX_SEQ_LEN: usize = 1024;

/// The tokens the runner feeds first: the encoded prompt, or `<|endoftext|>` alone.
pub fn prompt_tokens(t: &Tokenizer, prompt: &[u8]) -> (res: Vec<u32>)
    requires
        t.wf(),
    ensures
        res@ == if prompt@.len() > 0 {
            encode_spec(vocab_view(t), merges_view(t), prompt@, MAX_PROMPT_TOKENS as nat)
        } else {
            seq![END_OF_TEXT]
        },
{
    if prompt.len() > 0 {
        bpe_encode(t, prompt, MAX_PROMPT_TOKENS)
    } else {
        let mut v: Vec<u32> = Vec::new();
        v.push(END_OF_TEXT);
        assert(v@ =~= seq![END_OF_TEXT]);
        v
    }
}

/// How many tokens the runner generates after `n_prompt` prompt tokens: as many as asked,
/// while positions remain.
pub fn generation_budget(n_prompt: usize, n_generate: u32) -> (res: u32)
    ensures
        res == if n_prompt >= MAX_SEQ_LEN {
            0
        } else {
            min(n_generate as int, MAX_SEQ_LEN - n_prompt) as u32
        },
{
    if n_prompt >= MAX_SEQ_LEN {
        return 0;
    }
    let room = (MAX_SEQ_LEN - n_prompt) as u32;
    if n_generate < room {
        n_generate
    } else {
        room
    }
}

/// The number that starts a weight file (`GPT2`, little-endian).
pub const WEIGHT_MAGIC: u32 = 0x47505432;
/// The model's dimensions.
pub const VOCAB_SIZE: usize = 50257;
pub const EMBED_DIM: usize = 768;
pub const NUM_LAYERS: usize = 12;
pub const FF_DIM: usize = 3072;

/// How many numbers each tensor of a layer holds, in file order: the first norm's weight
/// and bias, the attention's input weight and bias, its output weight and bias, the second
/// norm's weight and bias, and the feed-forward network's two weights and biases.
pub open spec fn layer_sizes() -> Seq<nat> {
    seq![
        EMBED_DIM as nat, EMBED_DIM as nat, (3 * EMBED_DIM * EMBED_DIM) as nat, (3 * EMBED_DIM) as nat,
        (EMBED_DIM * EMBED_DIM) as nat, EMBED_DIM as nat, EMBED_DIM as nat, EMBED_DIM as nat,
        (FF_DIM * EMBED_DIM) as nat, FF_DIM as nat, (EMBED_DIM * FF_DIM) as nat, EMBED_DIM as nat,
    ]
}

/// How many numbers each tensor of the file holds, in order: token and position
/// embeddings, the layers, and the final norm's weight and bias.
pub open spec fn tensor_sizes() -> Seq<nat> {
    seq![(VOCAB_SIZE * EMBED_DIM) as nat, (MAX_SEQ_LEN * EMBED_DIM) as nat] + layers_sizes(NUM_LAYERS as nat)
        + seq![EMBED_DIM as nat, EMBED_DIM as nat]
}

/// The sizes of `n` layers' tensors, in order.
pub open spec fn layers_sizes(n: nat) -> Seq<nat>
    decreases n,
{
    if n == 0 {
        Seq::empty()
    } else {
        layers_sizes((n - 1) as nat) + layer_sizes()
    }
}

/// Where each tensor starts, in bytes: after the 16-byte header and the tensors before it
/// (four bytes a number).
pub open spec fn tensor_offsets(sizes: Seq<nat>, start: nat) -> Seq<nat>
    decreases sizes.len(),
{
    if sizes.len() == 0 {
        Seq::empty()
    } else {
        seq![start] + tensor_offsets(sizes.drop_first(), start + 4 * sizes[0])
    }
}

/// The byte offsets of the weight file's tensors, in order.
pub fn weight_offsets() -> (res: Vec<u64>)
    ensures
        res@.map_values(|x: u64| x as nat) == tensor_offsets(tensor_sizes(), 16),
{
    let mut sizes: Vec<usize> = Vec::new();
    sizes.push(VOCAB_SIZE * EMBED_DIM);
    sizes.push(MAX_SEQ_LEN * EMBED_DIM);
    let mut l: usize = 0;
    let ghost head = seq![(VOCAB_SIZE * EMBED_DIM) as nat, (MAX_SEQ_LEN * EMBED_DIM) as nat];
    assert(sizes@.map_values(|x: usize| x as nat) =~= head + layers_sizes(0));
    while l < NUM_LAYERS
        invariant
            l <= NUM_LAYERS,
            sizes@.map_values(|x: usize| x as nat) == head + layers_sizes(l as nat),
            sizes@.len() == 2 + 12 * l,
            forall|k: int| 0 <= k < sizes@.len() ==> sizes@[k] <= VOCAB_SIZE * EMBED_DIM,
        decreases NUM_LAYERS - l,
    {
        let ghost before = sizes@.map_values(|x: usize| x as nat);
        sizes.push(EMBED_DIM);
        sizes.push(EMBED_DIM);
        sizes.push(3 * EMBED_DIM * EMBED_DIM);
        sizes.push(3 * EMBED_DIM);
        sizes.push(EMBED_DIM * EMBED_DIM);
        sizes.push(EMBED_DIM);
        sizes.push(EMBED_DIM);
        sizes.push(EMBED_DIM);
        sizes.push(FF_DIM * EMBED_DIM);
        sizes.push(FF_DIM);
        sizes.push(EMBED_DIM * FF_DIM);
        sizes.push(EMBED_DIM);
        assert(sizes@.map_values(|x: usize| x as nat) =~= before + layer_sizes());
        assert(layers_sizes((l + 1) as nat) == layers_sizes(l as nat) + layer_sizes());
        l += 1;
    }
    let ghost mid = sizes@.map_values(|x: usize| x as nat);
    sizes.push(EMBED_DIM);
    sizes.push(EMBED_DIM);
    assert(sizes@.map_values(|x: usize| x as nat) =~= tensor_sizes());
    let ghost all = tensor_sizes();
    let mut out: Vec<u64> = Vec::new();
    let mut off: u64 = 16;
    assert(all.skip(0) =~= all);
    assert(out@.map_values(|x: u64| x as nat) =~= Seq::<nat>::empty());
    let mut i: usize = 0;
    while i < sizes.len()
        invariant
            i <= sizes@.len(),
            sizes@.len() == 148,
            sizes@.map_values(|x: usize| x as nat) == all,
            forall|k: int| 0 <= k < sizes@.len() ==> sizes@[k] <= VOCAB_SIZE * EMBED_DIM,
            off <= 16 + 154389504 * (i as int),
            tensor_offsets(all, 16) == out@.map_values(|x: u64| x as nat) + tensor_offsets(
                all.skip(i as int),
                off as nat,
            ),
        decreases sizes@.len() - i,
    {
        let ghost before = out@.map_values(|x: u64| x as nat);
        out.push(off);
        let ghost rest = all.skip(i as int);
        assert(rest[0] == sizes@[i as int]);
        assert(rest.drop_first() =~= all.skip(i + 1));
        assert(out@.map_values(|x: u64| x as nat) =~= before.push(off as nat));
        assert(tensor_offsets(rest, off as nat) == seq![off as nat] + tensor_offsets(rest.drop_first(), (off + 4 * rest[0]) as nat));
        assert(before + (seq![off as nat] + tensor_offsets(all.skip(i + 1), (off + 4 * rest[0]) as nat)) =~= before.push(
            off as nat,
        ) + tensor_offsets(all.skip(i + 1), (off + 4 * rest[0]) as nat));
        assert(4 * sizes@[i as int] <= 4 * (VOCAB_SIZE * EMBED_DIM));
        off = off + 4 * (sizes[i] as u64);
        i += 1;
    }
    assert(all.skip(148) =~= Seq::<nat>::empty());
    assert(out@.map_values(|x: u64| x as nat) + Seq::<nat>::empty() =~= out@.map_values(|x: u64| x as nat));
    out
}

} // verus!
