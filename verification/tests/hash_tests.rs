use tgit::hash::{decode_hash, digest, from_hex, hex_of, parse_hex, to_hex, HashError};

const HELLO: &str = "ce013625030ba8dba906f756967f9e9ca394464a";

#[test]
fn digest_of_hello_blob_is_fixed() {
    let h = digest(b"blob 6\0hello\n");
    assert_eq!(to_hex(&h), HELLO);
    assert_eq!(to_hex(&digest(b"blob 6\0hello\n")), HELLO);
}

#[test]
fn digest_differs_from_its_input() {
    let input = [7u8; 20];
    assert_ne!(digest(&input), input);
    assert_eq!(to_hex(&digest(b"")), "da39a3ee5e6b4b0d3255bfef95601890afd80709");
}

#[test]
fn to_hex_is_lowercase_and_40_long() {
    let mut h = [0u8; 20];
    h[0] = 0xAB;
    h[19] = 0x0F;
    let s = to_hex(&h);
    assert_eq!(s.len(), 40);
    assert_eq!(s, "ab0000000000000000000000000000000000000f");
    assert_eq!(hex_of(&h), s.as_bytes().to_vec());
}

#[test]
fn from_hex_reads_both_cases() {
    let lower = from_hex(HELLO).unwrap();
    let upper = from_hex(&HELLO.to_uppercase()).unwrap();
    assert_eq!(lower, upper);
    assert_eq!(lower[0], 0xce);
    assert_eq!(lower[19], 0x4a);
    assert_eq!(to_hex(&lower), HELLO);
}

#[test]
fn from_hex_rejects_wrong_length() {
    assert_eq!(from_hex(&HELLO[..39]), Err(HashError::MalformedHash));
    assert_eq!(from_hex(""), Err(HashError::MalformedHash));
    let long = format!("{}0", HELLO);
    assert_eq!(from_hex(&long), Err(HashError::MalformedHash));
    let longer = format!("{}00", HELLO);
    assert_eq!(from_hex(&longer), Err(HashError::MalformedHash));
}

#[test]
fn from_hex_rejects_non_hex() {
    let bad = format!("g{}", &HELLO[1..]);
    assert_eq!(from_hex(&bad), Err(HashError::MalformedHash));
    let bad = format!("{} ", &HELLO[..39]);
    assert_eq!(parse_hex(bad.as_bytes()), Err(HashError::MalformedHash));
}

#[test]
fn decode_hash_reads_or_rejects() {
    assert_eq!(decode_hash(HELLO), from_hex(HELLO));
    assert_eq!(decode_hash(HELLO).unwrap()[0], 0xce);
    assert_eq!(decode_hash(&HELLO[..39]), Err(HashError::MalformedHash));
    let bad = format!("{}x", &HELLO[..39]);
    assert_eq!(decode_hash(&bad), Err(HashError::MalformedHash));
}
