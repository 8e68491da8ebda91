use tgit::clone::{
    find_pack, pack_bases, plan_fetch, receive_pack, status_ok, url_suffix, want_set, CloneError,
    UrlSuffix,
};
use tgit::frame::ObjectKind;
use tgit::hash::from_hex;
use tgit::packfile::write_record_head;
use tgit::pktline::{pkt_line, PktError, Ref};
use tgit::resolve::ResolvedObject;
use tgit::varint::PackError;
use tgit::zlib::zlib_compress;

const HELLO: &str = "ce013625030ba8dba906f756967f9e9ca394464a";
const EMPTY_TREE: &str = "4b825dc642cb6eb9a060e54bf8d69288fbee4904";

fn advertisement() -> Vec<u8> {
    let mut body = pkt_line(b"# service=git-upload-pack\n").unwrap();
    body.extend_from_slice(b"0000");
    body.extend(pkt_line(format!("{} HEAD\0caps\n", HELLO).as_bytes()).unwrap());
    body.extend(pkt_line(format!("{} refs/heads/master\n", HELLO).as_bytes()).unwrap());
    body.extend(pkt_line(format!("{} refs/heads/other\n", EMPTY_TREE).as_bytes()).unwrap());
    body.extend(pkt_line(format!("{} refs/tags/v1\n", HELLO).as_bytes()).unwrap());
    body.extend_from_slice(b"0000");
    body
}

fn pack() -> Vec<u8> {
    let mut bytes = b"PACK\0\0\0\x02\0\0\0\x01".to_vec();
    bytes.extend(write_record_head(3, 6));
    bytes.extend(zlib_compress(b"hello\n").unwrap());
    bytes.extend_from_slice(&[0u8; 20]);
    bytes
}

#[test]
fn only_200_and_304_are_success() {
    assert!(status_ok(200));
    assert!(status_ok(304));
    assert!(!status_ok(404));
    assert!(!status_ok(500));
    assert!(!status_ok(201));
    assert!(!status_ok(0));
}

#[test]
fn url_gets_its_git_suffix() {
    assert_eq!(url_suffix("https://host/repo.git/"), UrlSuffix::Nothing);
    assert_eq!(url_suffix("https://host/repo.git"), UrlSuffix::Slash);
    assert_eq!(url_suffix("https://host/repo"), UrlSuffix::DotGitSlash);
    assert_eq!(url_suffix("https://host/repo/"), UrlSuffix::DotGitSlash);
    assert_eq!(url_suffix(""), UrlSuffix::DotGitSlash);
    assert_eq!(url_suffix(".git"), UrlSuffix::Slash);
    assert_eq!(url_suffix(".git/"), UrlSuffix::Nothing);
    assert_eq!(url_suffix("git/"), UrlSuffix::DotGitSlash);
}

#[test]
fn wants_are_the_targets_once_each() {
    let refs = vec![
        Ref { name: b"refs/heads/a".to_vec(), hash: from_hex(HELLO).unwrap() },
        Ref { name: b"refs/heads/b".to_vec(), hash: from_hex(EMPTY_TREE).unwrap() },
        Ref { name: b"refs/heads/c".to_vec(), hash: from_hex(HELLO).unwrap() },
    ];
    assert_eq!(want_set(&refs), vec![from_hex(HELLO).unwrap(), from_hex(EMPTY_TREE).unwrap()]);
    assert!(want_set(&Vec::new()).is_empty());
}

#[test]
fn plan_for_a_discovery() {
    let plan = plan_fetch(200, &advertisement()).unwrap();
    assert_eq!(plan.refs.len(), 3);
    assert_eq!(plan.refs[0].name, b"refs/heads/master".to_vec());
    assert_eq!(plan.refs[2].name, b"refs/tags/v1".to_vec());
    let expected = format!("0032want {}\n0032want {}\n00000009done\n", HELLO, EMPTY_TREE);
    assert_eq!(plan.request, expected.into_bytes());
    assert!(plan_fetch(304, &advertisement()).is_ok());
}

#[test]
fn plan_fails_on_status_or_body() {
    assert_eq!(plan_fetch(404, &advertisement()).err(), Some(CloneError::RepositoryNotFound));
    assert_eq!(plan_fetch(200, b"garbage").err(), Some(CloneError::Discovery(PktError::MalformedLine)));
    assert_eq!(plan_fetch(200, b"0000").err(), Some(CloneError::Discovery(PktError::EmptyWantSet)));
    assert_eq!(plan_fetch(500, b"garbage").err(), Some(CloneError::RepositoryNotFound));
}

#[test]
fn pack_is_found_after_the_preamble() {
    let mut body = b"0008NAK\n".to_vec();
    body.extend(pack());
    assert_eq!(find_pack(&body), Some(8));
    assert_eq!(find_pack(&pack()), Some(0));
    let mut flushed = b"00000008NAK\n0000".to_vec();
    flushed.extend(pack());
    assert_eq!(find_pack(&flushed), Some(16));
    assert_eq!(find_pack(b"0008NAK\n"), None);
    assert_eq!(find_pack(b""), None);
    assert_eq!(find_pack(b"junkPACK"), None);
    assert_eq!(find_pack(b"0009NAK\nPACK"), None);
}

#[test]
fn received_pack_gives_objects() {
    let mut body = b"0008NAK\n".to_vec();
    body.extend(pack());
    let objects = receive_pack(&body, &Vec::new()).unwrap();
    assert_eq!(objects.len(), 1);
    assert_eq!(objects[0].kind, ObjectKind::Blob);
    assert_eq!(objects[0].data, b"hello\n".to_vec());
    assert_eq!(objects[0].hash, from_hex(HELLO).unwrap());
}

#[test]
fn received_pack_failures() {
    assert_eq!(receive_pack(b"0008NAK\n", &Vec::new()).err(), Some(CloneError::NoPack));
    assert_eq!(receive_pack(b"0008NAK\nPACK\0\0\0\x09\0\0\0\0", &Vec::new()).err(), Some(CloneError::Pack(PackError::UnsupportedPackVersion)));
    let mut cut = b"0008NAK\n".to_vec();
    cut.extend(pack());
    cut.truncate(cut.len() - 25);
    assert_eq!(receive_pack(&cut, &Vec::new()).err(), Some(CloneError::Pack(PackError::CorruptObject)));
    let mut thin = b"PACK\0\0\0\x02\0\0\0\x01".to_vec();
    thin.extend(write_record_head(7, 4));
    thin.extend_from_slice(&from_hex(HELLO).unwrap());
    thin.extend(zlib_compress(&[6, 6, 0x90, 6]).unwrap());
    assert_eq!(receive_pack(&thin, &Vec::new()).err(), Some(CloneError::Pack(PackError::MissingBase)));
    assert_eq!(pack_bases(&thin), Ok(vec![from_hex(HELLO).unwrap()]));
    assert_eq!(pack_bases(b"0008NAK\n"), Err(CloneError::NoPack));
    assert_eq!(pack_bases(b"PACK"), Err(CloneError::Pack(PackError::TruncatedPack)));
    let known = vec![ResolvedObject::new(ObjectKind::Blob, b"hello\n".to_vec())];
    let objects = receive_pack(&thin, &known).unwrap();
    assert_eq!(objects[0].data, b"hello\n".to_vec());
}
