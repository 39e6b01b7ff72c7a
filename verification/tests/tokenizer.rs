use tiny_rust::textgen::{
    generation_budget, gpt2_args, prompt_tokens, rng_seed, transformer_args, weight_offsets, Context, END_OF_TEXT,
};
use tiny_rust::tokenizer::{bpe_encode, find_token, load_tokenizer, token_bytes, TokenizerError, TOKEN_MAGIC};

fn tokenizer_file(vocab: &[&[u8]], merges: &[(u32, u32, u32)]) -> Vec<u8> {
    let mut d = Vec::new();
    d.extend_from_slice(&TOKEN_MAGIC.to_le_bytes());
    d.extend_from_slice(&(vocab.len() as u32).to_le_bytes());
    d.extend_from_slice(&(merges.len() as u32).to_le_bytes());
    for v in vocab {
        d.extend_from_slice(&(v.len() as u16).to_le_bytes());
        d.extend_from_slice(v);
    }
    for (a, b, r) in merges {
        d.extend_from_slice(&a.to_le_bytes());
        d.extend_from_slice(&b.to_le_bytes());
        d.extend_from_slice(&r.to_le_bytes());
    }
    d
}

#[test]
fn loads_and_finds_tokens() {
    let f = tokenizer_file(&[b"a", b"b", b"c", b"ab", b"abc"], &[(0, 1, 3), (3, 2, 4)]);
    let t = load_tokenizer(&f).ok().unwrap();
    assert_eq!(t.vocab.len(), 5);
    assert_eq!(t.merges.len(), 2);
    assert_eq!(find_token(&t, b"ab"), 3);
    assert_eq!(find_token(&t, b"zz"), 5);
    assert_eq!(token_bytes(&t, 4), b"abc".to_vec());
    assert_eq!(token_bytes(&t, 9), Vec::<u8>::new());
}

#[test]
fn merges_by_priority_then_leftmost() {
    let f = tokenizer_file(&[b"a", b"b", b"c", b"ab", b"abc"], &[(0, 1, 3), (3, 2, 4)]);
    let t = load_tokenizer(&f).ok().unwrap();
    assert_eq!(bpe_encode(&t, b"abcab", 2048), vec![4, 3]);
    assert_eq!(bpe_encode(&t, b"abab", 2048), vec![3, 3]);
    assert_eq!(bpe_encode(&t, b"cxa", 2048), vec![2, 0, 0]);
    assert_eq!(bpe_encode(&t, b"abcab", 1), vec![4]);
    assert_eq!(bpe_encode(&t, b"", 10), Vec::<u32>::new());
}

#[test]
fn merged_tokens_leave_no_mergeable_pair() {
    let merges = [(0u32, 1u32, 3u32), (3, 2, 4), (2, 0, 5)];
    let f = tokenizer_file(&[b"a", b"b", b"c", b"ab", b"abc", b"ca"], &merges);
    let t = load_tokenizer(&f).ok().unwrap();
    for text in [&b"abcabcab"[..], b"cacab", b"bbbcaaab", b"abcabcabcab"] {
        let out = bpe_encode(&t, text, 2048);
        for w in out.windows(2) {
            assert!(!merges.iter().any(|&(a, b, _)| a == w[0] && b == w[1]));
        }
    }
}

#[test]
fn refused_files() {
    let mut f = tokenizer_file(&[b"a"], &[]);
    f[0] = 0;
    assert!(load_tokenizer(&f).err() == Some(TokenizerError::BadMagic));
    let f = tokenizer_file(&[b"a", b"bc"], &[(0, 1, 1)]);
    assert!(load_tokenizer(&f[..f.len() - 1]).err() == Some(TokenizerError::Truncated));
    assert!(load_tokenizer(&f[..14]).err() == Some(TokenizerError::Truncated));
    assert!(load_tokenizer(&f[..5]).err() == Some(TokenizerError::Truncated));
    let mut big = Vec::new();
    big.extend_from_slice(&TOKEN_MAGIC.to_le_bytes());
    big.extend_from_slice(&60000u32.to_le_bytes());
    big.extend_from_slice(&0u32.to_le_bytes());
    assert!(load_tokenizer(&big).err() == Some(TokenizerError::TooLarge));
}

#[test]
fn transformer_side() {
    assert_eq!(transformer_args(b"tt\0"), (b"hello ".to_vec(), 64));
    assert_eq!(transformer_args(b"tt\0the cat\0"), (b"the cat".to_vec(), 64));
    assert_eq!(transformer_args(b"tt\0x\010\0"), (b"x".to_vec(), 10));
    assert_eq!(transformer_args(b"tt\0x\0ten\0"), (b"x".to_vec(), 64));
    let long = format!("tt\0{}\0", "p".repeat(200));
    assert_eq!(transformer_args(long.as_bytes()).0.len(), 128);
    let mut c = Context::new(b"hello ");
    assert_eq!(c.run_len(), 6);
    for i in 0..40u8 {
        c.push(b'a' + (i % 26));
    }
    assert_eq!(c.tokens.len(), 32);
    assert_eq!(*c.tokens.last().unwrap(), b'a' + (39 % 26));
    assert_eq!(Context::new(b"").run_len(), 1);
    assert_eq!(rng_seed(0), 0x1234_5678_9abc_def0);
    assert_eq!(rng_seed(42), 42);
}

#[test]
fn gpt2_side() {
    let a = gpt2_args(b"g\0w.bin\0t.bin\0Hello\020x\00.7\0");
    assert_eq!(a.weights_path, b"w.bin\0".to_vec());
    assert_eq!(a.tokenizer_path, b"t.bin\0".to_vec());
    assert_eq!(a.prompt, b"Hello".to_vec());
    assert_eq!(a.n_tokens, 20);
    assert_eq!(a.temperature, Some(b"0.7".to_vec()));
    let b = gpt2_args(b"g\0");
    assert!(b.weights_path.is_empty() && b.tokenizer_path.is_empty());
    assert_eq!(b.n_tokens, 128);
    assert_eq!(b.temperature, None);
    let f = tokenizer_file(&[b"a"], &[]);
    let t = load_tokenizer(&f).ok().unwrap();
    assert_eq!(prompt_tokens(&t, b""), vec![END_OF_TEXT]);
    assert_eq!(prompt_tokens(&t, b"aa"), vec![0, 0]);
    assert_eq!(generation_budget(10, 128), 128);
    assert_eq!(generation_budget(1000, 128), 24);
    assert_eq!(generation_budget(2000, 5), 0);
    let offs = weight_offsets();
    assert_eq!(offs.len(), 148);
    assert_eq!(offs[0], 16);
    assert_eq!(offs[1], 16 + 4 * 50257 * 768);
    assert_eq!(offs[2], 16 + 4 * 50257 * 768 + 4 * 1024 * 768);
}
