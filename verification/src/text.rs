//! Bridging between byte sequences and `String`s: ASCII text as UTF-8.

use vstd::prelude::*;
use vstd::utf8::*;

verus! {

/// Every byte is a 7-bit ASCII code.
pub open spec fn all_ascii(bytes: Seq<u8>) -> bool {
    forall|i: int| 0 <= i < bytes.len() ==> #[trigger] bytes[i] < 128
}

/// The characters named by a sequence of ASCII codes.
pub open spec fn ascii_chars(bytes: Seq<u8>) -> Seq<char> {
    bytes.map_values(|b: u8| b as char)
}

/// ASCII bytes are valid UTF-8, and decode to the characters of the same codes.
pub proof fn lemma_ascii_utf8(bytes: Seq<u8>)
    requires
        all_ascii(bytes),
    ensures
        valid_utf8(bytes),
        decode_utf8(bytes) == ascii_chars(bytes),
    decreases bytes.len(),
{
    if bytes.len() > 0 {
        let b = bytes[0];
        assert(b < 128);
        assert((b & 0x7f) == b) by (bit_vector)
            requires
                b < 128,
        ;
        assert(is_leading_byte_width_1(b));
        assert(valid_first_scalar(bytes));
        let rest = pop_first_scalar(bytes);
        assert(rest =~= bytes.subrange(1, bytes.len() as int));
        assert(all_ascii(rest)) by {
            assert forall|i: int| 0 <= i < rest.len() implies #[trigger] rest[i] < 128 by {
                assert(rest[i] == bytes[i + 1]);
            }
        }
        lemma_ascii_utf8(rest);
        assert(decode_utf8(bytes) =~= ascii_chars(bytes));
    }
}

/// Encoding the characters of ASCII codes as UTF-8 gives the codes back.
pub proof fn lemma_ascii_encode_utf8(bytes: Seq<u8>)
    requires
        all_ascii(bytes),
    ensures
        encode_utf8(ascii_chars(bytes)) == bytes,
{
    lemma_ascii_utf8(bytes);
    decode_utf8_encode_utf8(bytes);
}

/// `String::from_utf8(v).ok()` of std: `Some` exactly when the bytes are valid UTF-8,
/// and then the string's characters are those the bytes encode.
#[verifier::external_body]
pub(crate) fn string_from_utf8(v: Vec<u8>) -> (res: Option<String>)
    ensures
        res.is_some() <==> valid_utf8(v@),
        res matches Some(s) ==> s@ == decode_utf8(v@),
{
    String::from_utf8(v).ok()
}

/// Builds a `String` from ASCII codes.
pub fn ascii_string(v: Vec<u8>) -> (res: String)
    requires
        all_ascii(v@),
    ensures
        res@ == ascii_chars(v@),
{
    proof {
        lemma_ascii_utf8(v@);
    }
    let ghost bytes = v@;
    match string_from_utf8(v) {
        Some(s) => s,
        None => {
            proof {
                assert(false);
            }
            String::new()
        },
    }
}

} // verus!
