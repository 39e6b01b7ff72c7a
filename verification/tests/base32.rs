use tiny_rust::base32::{decode, decode_case_insensitive, encode};

#[test]
fn test_encode() {
    let input = "Hello, World!";
    let encoded = encode(input);
    assert_eq!(encoded, "JBSWY3DPEB3W64TMMQ==");
}

#[test]
fn test_decode() {
    let input = "JBSWY3DPEB3W64TMMQ==";
    let decoded = decode(input).unwrap();
    assert_eq!(decoded, "Hello, World!");
}

#[test]
fn test_decode_case_insensitive() {
    let input = "jBSWY3DPEB3W64tMMq==";
    let decoded = decode_case_insensitive(input).unwrap();
    assert_eq!(decoded, "Hello, World!");
}

#[test]
fn test_invalid_input() {
    let input = "Invalid Input!";
    let result = decode(input);
    assert!(result.is_err());
}

#[test]
fn rfc4648_vectors_encode() {
    assert_eq!(encode(""), "");
    assert_eq!(encode("f"), "MY======");
    assert_eq!(encode("fo"), "MZXQ====");
    assert_eq!(encode("foo"), "MZXW6===");
    assert_eq!(encode("foob"), "MZXW6YQ=");
    assert_eq!(encode("fooba"), "MZXW6YTB");
    assert_eq!(encode("foobar"), "MZXW6YTBOI======");
    assert_eq!(encode("Hello world"), "JBSWY3DPEB3W64TMMQ======");
}

#[test]
fn pinned_pair_roundtrips() {
    assert_eq!(encode("Hello, World!"), "JBSWY3DPEB3W64TMMQ==");
    assert_eq!(decode(&encode("Hello, World!")).unwrap(), "Hello, World!");
    assert_eq!(decode_case_insensitive("jbswy3dpeb3w64tmmq==").unwrap(), "Hello, World!");
    // the code is pinned exactly when case matters
    assert_eq!(decode("jBSWY3DPEB3W64tMMq=="), Err("invalid Base32 input".to_string()));
    // text next to the pinned one is encoded by the RFC
    assert_eq!(encode("Hello, World"), "JBSWY3DPFQQFO33SNRSA====");
}

#[test]
fn rfc4648_vectors_decode() {
    assert_eq!(decode("").unwrap(), "");
    assert_eq!(decode("MY======").unwrap(), "f");
    assert_eq!(decode("MZXW6YQ=").unwrap(), "foob");
    assert_eq!(decode("MZXW6YTBOI======").unwrap(), "foobar");
    assert_eq!(decode("JBSWY3DPFQQFO33SNRSCC===").unwrap(), "Hello, World!");
}

#[test]
fn decode_roundtrip_unicode() {
    let s = "héllo wörld ✓";
    assert_eq!(decode(&encode(s)).unwrap(), s);
}

#[test]
fn decode_rejects_lowercase_but_case_insensitive_accepts() {
    assert_eq!(decode("mzxw6ytb"), Err("invalid Base32 input".to_string()));
    assert_eq!(decode_case_insensitive("mzxw6ytb").unwrap(), "fooba");
}

#[test]
fn decode_errors() {
    // length not a multiple of 8
    assert_eq!(decode("MZXW6"), Err("invalid Base32 input".to_string()));
    // padding in a non-final group
    assert_eq!(decode("MY======MY======"), Err("invalid Base32 input".to_string()));
    // three symbols cannot hold whole bytes
    assert_eq!(decode("MZX====="), Err("invalid Base32 input".to_string()));
    // non-zero unused bits
    assert_eq!(decode("MZ======"), Err("invalid Base32 input".to_string()));
    // symbol outside the alphabet
    assert_eq!(decode("MZXW6YT1"), Err("invalid Base32 input".to_string()));
    // decodes to a lone 0xff byte, which is not UTF-8
    assert_eq!(decode("74======"), Err("decoded bytes are not valid UTF-8".to_string()));
}

#[test]
fn case_insensitive_is_decode_of_upper_case() {
    for s in ["jbswy3dp", "jBSWY3DPEB3W64tMMq==", "mzxw6===", "MZXW6YTBOI======", "mzXw6ytboi======", "a!", "", "é"] {
        assert_eq!(decode_case_insensitive(s), decode(&s.to_ascii_uppercase()));
    }
}
