//! The XOR packer's payload: machine code kept XOR-encrypted with a one-byte key and
//! decrypted before it runs.

use vstd::prelude::*;

verus! {

/// The key every payload byte is XORed with.
pub const XOR_KEY: u8 = 0xAA;

/// The encrypted payload.
pub open spec fn encrypted_payload() -> Seq<u8> {
    seq![0x15u8, 0x80, 0xaa, 0xaa, 0xaa, 0x12, 0x96, 0xaa, 0xaa, 0xaa, 0xa5, 0xaf]
}

/// Every byte of `s` XORed with `key`.
pub open spec fn xor_all(s: Seq<u8>, key: u8) -> Seq<u8> {
    Seq::new(s.len(), |i: int| s[i] ^ key)
}

/// Every byte of `data` XORed with `key`.
pub fn xor_bytes(data: &[u8], key: u8) -> (res: Vec<u8>)
    ensures
        res@ == xor_all(data@, key),
{
    let mut out: Vec<u8> = Vec::new();
    let mut i: usize = 0;
    while i < data.len()
        invariant
            i <= data@.len(),
            out@ == xor_all(data@.take(i as int), key),
        decreases data@.len() - i,
    {
        out.push(data[i] ^ key);
        assert(out@ =~= xor_all(data@.take(i + 1), key));
        i += 1;
    }
    assert(data@.take(data@.len() as int) =~= data@);
    out
}

/// The encrypted payload's bytes.
pub fn encrypted() -> (res: Vec<u8>)
    ensures
        res@ == encrypted_payload(),
{
    let v: Vec<u8> = vec![0x15u8, 0x80, 0xaa, 0xaa, 0xaa, 0x12, 0x96, 0xaa, 0xaa, 0xaa, 0xa5, 0xaf];
    assert(v@ =~= encrypted_payload());
    v
}

/// The decrypted payload, ready to be copied into executable memory.
pub fn payload() -> (res: Vec<u8>)
    ensures
        res@ == xor_all(encrypted_payload(), XOR_KEY),
{
    let e = encrypted();
    xor_bytes(e.as_slice(), XOR_KEY)
}

/// XORing twice with the same key gives the bytes back: encryption and decryption are the
/// same operation.
pub proof fn law_xor_involution(s: Seq<u8>, key: u8)
    ensures
        xor_all(xor_all(s, key), key) == s,
{
    assert forall|i: int| 0 <= i < s.len() implies #[trigger] xor_all(xor_all(s, key), key)[i] == s[i] by {
        let b = s[i];
        assert((b ^ key) ^ key == b) by (bit_vector);
    }
    assert(xor_all(xor_all(s, key), key) =~= s);
}

} // verus!
