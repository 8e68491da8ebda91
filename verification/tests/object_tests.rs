use tgit::blob::Blob;
use tgit::commit::{person, read_commit, Commit};
use tgit::frame::{read_frame, write_frame, DecodeError, ObjectKind};
use tgit::hash::{from_hex, to_hex, HashError};
use tgit::object::Object;
use tgit::text::{decimal_digits, find, le, parse_decimal};
use tgit::tree::{
    copy_entries, encode_entries, entry_mode, is_mode_word, parse_tree, sort_entries,
    tree_payload, FileKind, Tree, TreeEntry,
};

const HELLO: &str = "ce013625030ba8dba906f756967f9e9ca394464a";
const EMPTY_TREE: &str = "4b825dc642cb6eb9a060e54bf8d69288fbee4904";

fn entry(mode: &str, name: &str) -> TreeEntry {
    TreeEntry::new(mode.to_string(), name.to_string(), from_hex(HELLO).unwrap())
}

#[test]
fn decimal_digits_of_numbers() {
    assert_eq!(decimal_digits(0), b"0".to_vec());
    assert_eq!(decimal_digits(6), b"6".to_vec());
    assert_eq!(decimal_digits(10), b"10".to_vec());
    assert_eq!(decimal_digits(1234567), b"1234567".to_vec());
}

#[test]
fn parse_decimal_reads_and_rejects() {
    assert_eq!(parse_decimal(b"x154y", 1, 4), Some(154));
    assert_eq!(parse_decimal(b"007", 0, 3), Some(7));
    assert_eq!(parse_decimal(b"12a", 0, 3), None);
    assert_eq!(parse_decimal(b"12", 1, 1), None);
    assert_eq!(parse_decimal(b"12", 2, 1), None);
    assert_eq!(parse_decimal(b"12", 0, 3), None);
    assert_eq!(parse_decimal(b"99999999999999999999999", 0, 23), None);
    assert_eq!(parse_decimal(b"18446744073709551615", 0, 20), Some(usize::MAX));
    assert_eq!(parse_decimal(b"18446744073709551616", 0, 20), None);
}

#[test]
fn find_and_order_of_names() {
    assert_eq!(find(b"ab cd", b' ', 0), 2);
    assert_eq!(find(b"ab cd", b' ', 3), 5);
    assert_eq!(find(b"ab cd", b' ', 9), 5);
    assert!(le(b"a.txt", b"b.txt"));
    assert!(!le(b"b.txt", b"a.txt"));
    assert!(le(b"a", b"a.txt"));
    assert!(!le(b"a.txt", b"a"));
    assert!(le(b"same", b"same"));
    assert!(le(b"", b"x"));
    assert!(le(b"Z", b"a"));
}

#[test]
fn frame_of_blob() {
    assert_eq!(write_frame(ObjectKind::Blob, b"hello\n"), b"blob 6\0hello\n".to_vec());
    assert_eq!(write_frame(ObjectKind::Tree, b""), b"tree 0\0".to_vec());
    assert_eq!(read_frame(b"blob 6\0hello\n"), Ok((ObjectKind::Blob, 7)));
    assert_eq!(read_frame(b"commit 0\0"), Ok((ObjectKind::Commit, 9)));
    assert_eq!(read_frame(b"tag 1\0x"), Ok((ObjectKind::Tag, 6)));
}

#[test]
fn blob_hash_and_bytes() {
    let blob = Blob::new(b"hello\n".to_vec());
    assert_eq!(blob.encoded_hash(), HELLO);
    assert_eq!(blob.sha1_hash(), from_hex(HELLO).unwrap());
    assert_eq!(blob.write_data(), &b"blob 6\0hello\n".to_vec());
    assert_eq!(blob.contents, b"hello\n".to_vec());
}

#[test]
fn entry_modes() {
    assert_eq!(entry_mode(FileKind::File, false), b"100644".to_vec());
    assert_eq!(entry_mode(FileKind::File, true), b"100755".to_vec());
    assert_eq!(entry_mode(FileKind::Symlink, false), b"120000".to_vec());
    assert_eq!(entry_mode(FileKind::Symlink, true), b"120000".to_vec());
    assert_eq!(entry_mode(FileKind::Directory, false), b"040000".to_vec());
}

#[test]
fn entry_record() {
    let e = entry("100644", "a.txt");
    let mut expected = b"100644 a.txt\0".to_vec();
    expected.extend_from_slice(&from_hex(HELLO).unwrap());
    assert_eq!(e.data(), expected);
    assert_eq!(e.mode, b"100644".to_vec());
    assert_eq!(e.name, b"a.txt".to_vec());
}

#[test]
fn tree_puts_a_before_b() {
    let tree = Tree::new(vec![entry("100644", "b.txt"), entry("100644", "a.txt")]);
    assert_eq!(tree.entries[0].name, b"a.txt".to_vec());
    assert_eq!(tree.entries[1].name, b"b.txt".to_vec());
    assert_eq!(tree.encoded_sha(), "b5b0cccf7401633f12e0fafc6b85731251b86850");
    let mut payload = entry("100644", "a.txt").data();
    payload.extend(entry("100644", "b.txt").data());
    assert_eq!(tree.write_data(), &write_frame(ObjectKind::Tree, &payload));
}

#[test]
fn tree_hash_ignores_input_order() {
    let one = Tree::new(vec![entry("100644", "b.txt"), entry("040000", "c"), entry("100755", "a.txt")]);
    let two = Tree::new(vec![entry("100755", "a.txt"), entry("100644", "b.txt"), entry("040000", "c")]);
    let three = Tree::new(vec![entry("040000", "c"), entry("100755", "a.txt"), entry("100644", "b.txt")]);
    assert_eq!(one.sha1_hash(), two.sha1_hash());
    assert_eq!(one.sha1_hash(), three.sha1_hash());
    assert_eq!(one.write_data(), two.write_data());
    assert_eq!(one.write_data(), three.write_data());
}

#[test]
fn sort_is_bytewise() {
    let sorted = sort_entries(vec![entry("100644", "b"), entry("100644", "B"), entry("100644", "a.b"), entry("100644", "a")]);
    let names: Vec<Vec<u8>> = sorted.iter().map(|e| e.name.clone()).collect();
    assert_eq!(names, vec![b"B".to_vec(), b"a".to_vec(), b"a.b".to_vec(), b"b".to_vec()]);
}

#[test]
fn empty_tree_hash() {
    let tree = Tree::new(Vec::new());
    assert_eq!(tree.encoded_sha(), EMPTY_TREE);
    assert_eq!(tree.write_data(), &b"tree 0\0".to_vec());
}

#[test]
fn blob_round_trip() {
    let blob = Object::Blob(Blob::new(b"a\0b\nc".to_vec()));
    let bytes = blob.encode();
    assert_eq!(bytes, b"blob 5\0a\0b\nc".to_vec());
    match Object::decode(&bytes) {
        Ok(Object::Blob(b)) => {
            assert_eq!(b.contents, b"a\0b\nc".to_vec());
            assert_eq!(b.sha1_hash(), blob.sha1_hash());
        }
        other => panic!("not a blob: {:?}", other),
    }
}

#[test]
fn tree_round_trip() {
    let tree = Object::Tree(Tree::new(vec![entry("100644", "b.txt"), entry("040000", "dir"), entry("120000", "a")]));
    let bytes = tree.encode();
    match Object::decode(&bytes) {
        Ok(Object::Tree(t)) => {
            assert_eq!(t.entries.len(), 3);
            assert_eq!(t.entries[0].name, b"a".to_vec());
            assert_eq!(t.entries[0].mode, b"120000".to_vec());
            assert_eq!(t.entries[1].name, b"b.txt".to_vec());
            assert_eq!(t.entries[2].name, b"dir".to_vec());
            assert_eq!(t.entries[2].sha1_hash, from_hex(HELLO).unwrap());
            assert_eq!(t.sha1_hash(), tree.sha1_hash());
            assert_eq!(Object::Tree(t).encode(), bytes);
        }
        other => panic!("not a tree: {:?}", other),
    }
}

#[test]
fn commit_round_trip() {
    let commit = Commit::new(EMPTY_TREE, Some(HELLO), "a message\n\nwith lines", "A U Thor", "author@example.com", "1234567890", "-3600").unwrap();
    let bytes = Object::Commit(commit.clone()).encode();
    match Object::decode(&bytes) {
        Ok(Object::Commit(c)) => {
            assert_eq!(c.tree_sha, from_hex(EMPTY_TREE).unwrap());
            assert_eq!(c.parents, vec![from_hex(HELLO).unwrap()]);
            assert_eq!(c.author.name, b"A U Thor".to_vec());
            assert_eq!(c.author.email, b"author@example.com".to_vec());
            assert_eq!(c.author.timestamp, b"1234567890".to_vec());
            assert_eq!(c.author.tz_offset, b"-3600".to_vec());
            assert_eq!(c.committer.name, b"A U Thor".to_vec());
            assert_eq!(c.message, b"a message\n\nwith lines".to_vec());
            assert_eq!(c.sha1_hash(), commit.sha1_hash());
            assert_eq!(c.write_data(), commit.write_data());
        }
        other => panic!("not a commit: {:?}", other),
    }
}

#[test]
fn tag_round_trip() {
    let tag = Object::Tag(b"object x\n".to_vec());
    let bytes = tag.encode();
    assert_eq!(bytes, b"tag 9\0object x\n".to_vec());
    match Object::decode(&bytes) {
        Ok(Object::Tag(p)) => assert_eq!(p, b"object x\n".to_vec()),
        other => panic!("not a tag: {:?}", other),
    }
    assert_eq!(tag.kind(), ObjectKind::Tag);
}

#[test]
fn commit_without_parent_has_golden_hash() {
    let commit = Commit::new(EMPTY_TREE, None, "init", "A U Thor", "author@example.com", "1234567890", "0").unwrap();
    assert_eq!(commit.encoded_sha(), "2feccf0053ab9dc0a9d58a8e9f56cd8c7a4a0a6b");
    let expected = format!(
        "commit 154\0tree {}\nauthor A U Thor <author@example.com> 1234567890 0\ncommitter A U Thor <author@example.com> 1234567890 0\n\ninit",
        EMPTY_TREE
    );
    assert_eq!(commit.write_data(), &expected.into_bytes());
    assert!(commit.parents.is_empty());
}

#[test]
fn commit_with_parent_has_golden_hash() {
    let commit = Commit::new(EMPTY_TREE, Some("2feccf0053ab9dc0a9d58a8e9f56cd8c7a4a0a6b"), "second", "A U Thor", "author@example.com", "1234567890", "0").unwrap();
    assert_eq!(commit.encoded_sha(), "0bee736a16a6e8e8163bb31240b234fc08c1e289");
}

#[test]
fn commit_rejects_malformed_hashes() {
    assert_eq!(Commit::new("abc", None, "m", "n", "e", "1", "0").err(), Some(HashError::MalformedHash));
    assert_eq!(Commit::new(EMPTY_TREE, Some("zz"), "m", "n", "e", "1", "0").err(), Some(HashError::MalformedHash));
}

#[test]
fn commit_from_parts_with_two_parents() {
    let who = person("N", "e@x", "5", "60");
    let parents = vec![from_hex(HELLO).unwrap(), from_hex(EMPTY_TREE).unwrap()];
    let commit = Commit::from_parts(from_hex(EMPTY_TREE).unwrap(), parents.clone(), who.clone(), who, b"merge".to_vec());
    let text = format!("tree {}\nparent {}\nparent {}\nauthor N <e@x> 5 60\ncommitter N <e@x> 5 60\n\nmerge", EMPTY_TREE, HELLO, EMPTY_TREE);
    assert_eq!(commit.write_data(), &write_frame(ObjectKind::Commit, text.as_bytes()));
    let back = read_commit(text.as_bytes()).unwrap();
    assert_eq!(back.parents, parents);
    assert_eq!(to_hex(&back.sha1_hash()), commit.encoded_sha());
}

#[test]
fn decode_rejects_bad_frames() {
    assert_eq!(Object::decode(b"blob 7\0hello\n").err(), Some(DecodeError::FramingError));
    assert_eq!(Object::decode(b"blob 5\0hello\n").err(), Some(DecodeError::FramingError));
    assert_eq!(Object::decode(b"blob6\0hello\n").err(), Some(DecodeError::FramingError));
    assert_eq!(Object::decode(b"blob 6hello\n").err(), Some(DecodeError::FramingError));
    assert_eq!(Object::decode(b"blob \0").err(), Some(DecodeError::FramingError));
    assert_eq!(Object::decode(b"blob x\0h").err(), Some(DecodeError::FramingError));
    assert_eq!(Object::decode(b"").err(), Some(DecodeError::FramingError));
}

#[test]
fn decode_rejects_unknown_kind() {
    assert_eq!(Object::decode(b"blub 6\0hello\n").err(), Some(DecodeError::UnknownObjectKind));
    assert_eq!(Object::decode(b"Blob 0\0").err(), Some(DecodeError::UnknownObjectKind));
    assert_eq!(Object::decode(b" 0\0").err(), Some(DecodeError::UnknownObjectKind));
}

#[test]
fn decode_rejects_truncated_tree() {
    let mut payload = entry("100644", "a.txt").data();
    payload.pop();
    let bytes = write_frame(ObjectKind::Tree, &payload);
    assert_eq!(Object::decode(&bytes).err(), Some(DecodeError::TruncatedTree));
    assert_eq!(parse_tree(b"100644 a.txt").err(), Some(DecodeError::TruncatedTree));
    assert_eq!(parse_tree(b"100644").err(), Some(DecodeError::TruncatedTree));
    assert_eq!(parse_tree(b"").map(|v| v.len()), Ok(0));
}

#[test]
fn decode_rejects_cut_commit() {
    let text = format!("tree {}\nauthor N <e@x> 5 60\n", EMPTY_TREE);
    let bytes = write_frame(ObjectKind::Commit, text.as_bytes());
    assert_eq!(Object::decode(&bytes).err(), Some(DecodeError::FramingError));
    assert!(read_commit(b"tree 1234\n").is_none());
}

#[test]
fn encode_sorts_whatever_the_tree_holds() {
    let sorted = Tree::new(vec![entry("100644", "a"), entry("100644", "b")]);
    let mut shuffled = sorted.clone();
    shuffled.entries.reverse();
    assert_eq!(shuffled.entries[0].name, b"b".to_vec());
    assert_eq!(Object::Tree(shuffled.clone()).encode(), Object::Tree(sorted.clone()).encode());
    assert_eq!(Object::Tree(shuffled.clone()).sha1_hash(), sorted.sha1_hash());
    assert_eq!(tree_payload(&shuffled.entries), encode_entries(&sorted.entries));
    assert_ne!(encode_entries(&shuffled.entries), encode_entries(&sorted.entries));
}

#[test]
fn copies_of_entries_are_equal() {
    let entries = vec![entry("100644", "x"), entry("040000", "y")];
    let copy = copy_entries(&entries);
    assert_eq!(copy.len(), 2);
    assert_eq!(copy[0].data(), entries[0].data());
    assert_eq!(copy[1].data(), entries[1].data());
}

#[test]
fn payload_is_the_frame_without_header() {
    let blob = Object::Blob(Blob::new(b"hello\n".to_vec()));
    assert_eq!(blob.payload(), b"hello\n".to_vec());
    assert_eq!(to_hex(&blob.sha1_hash()), HELLO);
    let commit = Commit::new(EMPTY_TREE, None, "init", "A U Thor", "author@example.com", "1234567890", "0").unwrap();
    let object = Object::Commit(commit.clone());
    assert_eq!(write_frame(ObjectKind::Commit, &object.payload()), commit.write_data().clone());
    assert_eq!(object.sha1_hash(), commit.sha1_hash());
    assert_eq!(object.kind(), ObjectKind::Commit);
}

#[test]
fn mode_words_are_four() {
    assert!(is_mode_word(b"100644"));
    assert!(is_mode_word(b"100755"));
    assert!(is_mode_word(b"120000"));
    assert!(is_mode_word(b"040000"));
    assert!(!is_mode_word(b"40000"));
    assert!(!is_mode_word(b"100645"));
    assert!(!is_mode_word(b""));
    assert!(!is_mode_word(b"100644 "));
}

#[test]
fn entries_are_validated() {
    assert!(entry("100644", "a.txt").is_valid());
    assert!(entry("040000", "dir").is_valid());
    assert!(!entry("100600", "a.txt").is_valid());
    assert!(!entry("100644", "").is_valid());
    assert!(!entry("100644", "a/b").is_valid());
    assert!(!entry("100644", "a\0b").is_valid());
}

#[test]
fn canonical_trees() {
    assert!(Tree::new(Vec::new()).is_canonical());
    assert!(Tree::new(vec![entry("100644", "b"), entry("100644", "a")]).is_canonical());
    assert!(!Tree::new(vec![entry("100644", "a"), entry("100755", "a")]).is_canonical());
    assert!(!Tree::new(vec![entry("100644", "a"), entry("100", "b")]).is_canonical());
    let mut shuffled = Tree::new(vec![entry("100644", "a"), entry("100644", "b")]);
    shuffled.entries.reverse();
    assert!(!shuffled.is_canonical());
}
