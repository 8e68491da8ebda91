use tgit::hash::{from_hex, to_hex};
use tgit::pktline::{
    build_want_request, hex_digit_value, parse_advertisement, pkt_line, read_pkt_len,
    read_ref_line, PktError, Ref,
};

const HELLO: &str = "ce013625030ba8dba906f756967f9e9ca394464a";
const EMPTY_TREE: &str = "4b825dc642cb6eb9a060e54bf8d69288fbee4904";

fn line(text: &str) -> Vec<u8> {
    pkt_line(text.as_bytes()).unwrap()
}

#[test]
fn hex_digits_both_ways() {
    assert_eq!(hex_digit_value(b'0'), Some(0));
    assert_eq!(hex_digit_value(b'9'), Some(9));
    assert_eq!(hex_digit_value(b'a'), Some(10));
    assert_eq!(hex_digit_value(b'F'), Some(15));
    assert_eq!(hex_digit_value(b'g'), None);
    assert_eq!(hex_digit_value(b' '), None);
}

#[test]
fn pkt_line_counts_its_prefix() {
    assert_eq!(pkt_line(b"done\n"), Some(b"0009done\n".to_vec()));
    assert_eq!(pkt_line(b""), Some(b"0004".to_vec()));
    assert_eq!(pkt_line(&[b'x'; 252]).unwrap()[..4].to_vec(), b"0100".to_vec());
    assert_eq!(pkt_line(&vec![b'x'; 65531]).unwrap()[..4].to_vec(), b"ffff".to_vec());
    assert_eq!(pkt_line(&vec![b'x'; 65532]), None);
}

#[test]
fn read_pkt_len_reads_four_digits() {
    assert_eq!(read_pkt_len(b"0032want", 0), Some(50));
    assert_eq!(read_pkt_len(b"xx0000", 2), Some(0));
    assert_eq!(read_pkt_len(b"FfFf", 0), Some(65535));
    assert_eq!(read_pkt_len(b"00g0", 0), None);
    assert_eq!(read_pkt_len(b"003", 0), None);
    assert_eq!(read_pkt_len(b"0032", 1), None);
    assert_eq!(read_pkt_len(b"0032", 9), None);
}

#[test]
fn want_request_for_one_hash() {
    let request = build_want_request(&vec![from_hex(HELLO).unwrap()]).unwrap();
    let expected = format!("0032want {}\n00000009done\n", HELLO);
    assert_eq!(request, expected.into_bytes());
}

#[test]
fn want_request_for_two_hashes() {
    let request = build_want_request(&vec![from_hex(HELLO).unwrap(), from_hex(EMPTY_TREE).unwrap()]).unwrap();
    let expected = format!("0032want {}\n0032want {}\n00000009done\n", HELLO, EMPTY_TREE);
    assert_eq!(request, expected.into_bytes());
}

#[test]
fn want_request_needs_a_hash() {
    assert_eq!(build_want_request(&Vec::new()), Err(PktError::EmptyWantSet));
}

#[test]
fn ref_line_with_and_without_capabilities() {
    let plain = format!("{} refs/heads/main\n", HELLO);
    let r = read_ref_line(plain.as_bytes()).unwrap();
    assert_eq!(r.name, b"refs/heads/main".to_vec());
    assert_eq!(r.hash, from_hex(HELLO).unwrap());
    let caps = format!("{} refs/heads/main\0multi_ack side-band\n", HELLO);
    let r = read_ref_line(caps.as_bytes()).unwrap();
    assert_eq!(r.name, b"refs/heads/main".to_vec());
    let bare = format!("{} refs/tags/v1", HELLO);
    assert_eq!(read_ref_line(bare.as_bytes()).unwrap().name, b"refs/tags/v1".to_vec());
}

#[test]
fn lines_that_hold_no_ref() {
    assert!(read_ref_line(b"# service=git-upload-pack\n").is_none());
    let head = format!("{} HEAD\0symref=HEAD:refs/heads/main\n", HELLO);
    assert!(read_ref_line(head.as_bytes()).is_none());
    let no_space = format!("{}_refs/heads/main\n", HELLO);
    assert!(read_ref_line(no_space.as_bytes()).is_none());
    let bad_hash = format!("{}z refs/heads/main\n", &HELLO[..39]);
    assert!(read_ref_line(bad_hash.as_bytes()).is_none());
    let short = format!("{} refs", HELLO);
    assert!(read_ref_line(short.as_bytes()).is_none());
    assert!(read_ref_line(b"").is_none());
}

#[test]
fn parse_pkt_line_skips_the_prefix() {
    let text = format!("003f{} refs/heads/master\n", HELLO);
    let r = Ref::parse_pkt_line(&text).unwrap();
    assert_eq!(r.name, b"refs/heads/master".to_vec());
    assert_eq!(to_hex(&r.hash), HELLO);
    assert!(Ref::parse_pkt_line("00").is_none());
    assert!(Ref::parse_pkt_line("0000").is_none());
}

#[test]
fn advertisement_of_a_remote() {
    let mut body = line("# service=git-upload-pack\n");
    body.extend_from_slice(b"0000");
    body.extend(line(&format!("{} HEAD\0multi_ack symref=HEAD:refs/heads/master\n", HELLO)));
    body.extend(line(&format!("{} refs/heads/master\n", HELLO)));
    body.extend(line(&format!("{} refs/tags/v1\n", EMPTY_TREE)));
    body.extend_from_slice(b"0000");
    let refs = parse_advertisement(&body).unwrap();
    assert_eq!(refs.len(), 2);
    assert_eq!(refs[0].name, b"refs/heads/master".to_vec());
    assert_eq!(refs[0].hash, from_hex(HELLO).unwrap());
    assert_eq!(refs[1].name, b"refs/tags/v1".to_vec());
    assert_eq!(refs[1].hash, from_hex(EMPTY_TREE).unwrap());
}

#[test]
fn advertisement_round_trip() {
    let pairs = vec![("refs/heads/a", HELLO), ("refs/heads/b", EMPTY_TREE), ("refs/x", HELLO)];
    let mut body = Vec::new();
    for (name, hash) in &pairs {
        body.extend(line(&format!("{} {}\n", hash, name)));
    }
    body.extend_from_slice(b"0000");
    let refs = parse_advertisement(&body).unwrap();
    assert_eq!(refs.len(), 3);
    for (r, (name, hash)) in refs.iter().zip(pairs.iter()) {
        assert_eq!(r.name, name.as_bytes().to_vec());
        assert_eq!(to_hex(&r.hash), *hash);
    }
}

#[test]
fn flush_lines_hold_nothing() {
    assert_eq!(parse_advertisement(b"0000").unwrap().len(), 0);
    assert_eq!(parse_advertisement(b"00000000").unwrap().len(), 0);
    assert_eq!(parse_advertisement(b"").unwrap().len(), 0);
    assert_eq!(parse_advertisement(b"0004").unwrap().len(), 0);
}

#[test]
fn advertisement_rejects_malformed_lines() {
    assert_eq!(parse_advertisement(b"0003").err(), Some(PktError::MalformedLine));
    assert_eq!(parse_advertisement(b"0001").err(), Some(PktError::MalformedLine));
    assert_eq!(parse_advertisement(b"0009done").err(), Some(PktError::MalformedLine));
    assert_eq!(parse_advertisement(b"zzzz").err(), Some(PktError::MalformedLine));
    assert_eq!(parse_advertisement(b"000").err(), Some(PktError::MalformedLine));
    assert_eq!(parse_advertisement(b"0009done\n00").err(), Some(PktError::MalformedLine));
}
