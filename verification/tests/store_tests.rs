use tgit::blob::Blob;
use tgit::commit::Commit;
use tgit::frame::DecodeError;
use tgit::hash::{digest, from_hex, to_hex};
use tgit::object::Object;
use tgit::store::{
    blob_of, commit_of, from_object_sha, get, load, object_location, put, tree_of, LoadError,
    PutAction,
};
use tgit::tree::{Tree, TreeEntry};
use tgit::zlib::{inflate_prefix, inflated_or_corrupt, zlib_compress, zlib_decompress, StoreError};

const HELLO: &str = "ce013625030ba8dba906f756967f9e9ca394464a";
const EMPTY_TREE: &str = "4b825dc642cb6eb9a060e54bf8d69288fbee4904";

#[test]
fn location_splits_the_hex_name() {
    let (dir, file) = object_location(&from_hex(HELLO).unwrap());
    assert_eq!(dir, "ce");
    assert_eq!(file, "013625030ba8dba906f756967f9e9ca394464a");
    assert_eq!(format!("{}{}", dir, file), HELLO);
}

#[test]
fn compress_then_decompress() {
    let bytes = b"blob 6\0hello\n";
    let compressed = zlib_compress(bytes).unwrap();
    assert_ne!(compressed, bytes.to_vec());
    assert_eq!(compressed[0], 0x78);
    assert_eq!(zlib_decompress(&compressed), Ok(bytes.to_vec()));
    let long = vec![b'a'; 100000];
    let packed = zlib_compress(&long).unwrap();
    assert!(packed.len() < 1000);
    assert_eq!(zlib_decompress(&packed), Ok(long));
}

#[test]
fn decompress_rejects_junk() {
    assert_eq!(zlib_decompress(b"not a zlib stream"), Err(StoreError::CorruptObject));
    assert_eq!(zlib_decompress(b""), Err(StoreError::CorruptObject));
    let mut cut = zlib_compress(b"blob 6\0hello\n").unwrap();
    cut.truncate(cut.len() - 3);
    assert_eq!(zlib_decompress(&cut), Err(StoreError::CorruptObject));
}

#[test]
fn inflate_prefix_counts_the_stream() {
    let mut bytes = zlib_compress(b"hello\n").unwrap();
    let used = bytes.len();
    bytes.extend_from_slice(b"what follows");
    assert_eq!(inflate_prefix(&bytes), Some((b"hello\n".to_vec(), used)));
    assert_eq!(inflate_prefix(&bytes[..used]), Some((b"hello\n".to_vec(), used)));
    assert_eq!(inflate_prefix(b"xx"), None);
}

#[test]
fn inflated_or_corrupt_maps_both_cases() {
    assert_eq!(inflated_or_corrupt(Some((vec![1, 2], 9))), Ok(vec![1, 2]));
    assert_eq!(inflated_or_corrupt(None), Err(StoreError::CorruptObject));
}

fn stream(bytes: &[u8]) -> Vec<u8> {
    match put(bytes, false) {
        Some((_, PutAction::Write(stream))) => stream,
        other => panic!("nothing to write: {:?}", other),
    }
}

#[test]
fn put_gives_hash_and_stream() {
    let bytes = b"blob 6\0hello\n";
    let (hash, action) = put(bytes, false).unwrap();
    assert_eq!(to_hex(&hash), HELLO);
    assert_eq!(hash, digest(bytes));
    match action {
        PutAction::Write(stream) => assert_eq!(zlib_decompress(&stream), Ok(bytes.to_vec())),
        PutAction::Keep => panic!("nothing written"),
    }
}

#[test]
fn put_twice_writes_once() {
    let bytes = b"blob 6\0hello\n";
    let (first, _) = put(bytes, false).unwrap();
    let (second, action) = put(bytes, true).unwrap();
    assert_eq!(first, second);
    assert!(matches!(action, PutAction::Keep));
    assert_eq!(stream(bytes), stream(bytes));
}

#[test]
fn get_reads_or_fails() {
    let stored = stream(b"blob 6\0hello\n");
    assert_eq!(get(Some(&stored)), Ok(b"blob 6\0hello\n".to_vec()));
    assert_eq!(get(None), Err(StoreError::ObjectNotFound));
    assert_eq!(get(Some(b"junk")), Err(StoreError::CorruptObject));
}

#[test]
fn load_checks_the_fingerprint() {
    let hash = from_hex(HELLO).unwrap();
    match load(&hash, Ok(b"blob 6\0hello\n".to_vec())) {
        Ok(Object::Blob(b)) => assert_eq!(b.contents, b"hello\n".to_vec()),
        other => panic!("not a blob: {:?}", other),
    }
    assert_eq!(load(&hash, Ok(b"blob 6\0hullo\n".to_vec())).err(), Some(LoadError::CorruptObject));
    assert_eq!(load(&hash, Ok(b"blob 9\0hello\n".to_vec())).err(), Some(LoadError::Malformed(DecodeError::FramingError)));
    assert_eq!(load(&hash, Ok(b"blub 6\0hello\n".to_vec())).err(), Some(LoadError::Malformed(DecodeError::UnknownObjectKind)));
    assert_eq!(load(&hash, Err(StoreError::ObjectNotFound)).err(), Some(LoadError::ObjectNotFound));
    assert_eq!(load(&hash, Err(StoreError::CorruptObject)).err(), Some(LoadError::CorruptObject));
}

#[test]
fn from_object_sha_reads_each_kind() {
    let blob = stream(b"blob 6\0hello\n");
    let b = Blob::from_object_sha(HELLO, Some(&blob)).unwrap();
    assert_eq!(b.contents, b"hello\n".to_vec());
    assert_eq!(b.encoded_hash(), HELLO);

    let tree = Tree::new(vec![TreeEntry::new("100644".to_string(), "f".to_string(), from_hex(HELLO).unwrap())]);
    let stored = stream(tree.write_data());
    let t = Tree::from_object_sha(&tree.encoded_sha(), Some(&stored)).unwrap();
    assert_eq!(t.entries.len(), 1);
    assert_eq!(t.entries[0].name, b"f".to_vec());
    assert_eq!(t.sha1_hash(), tree.sha1_hash());

    let commit = Commit::new(EMPTY_TREE, None, "init", "A U Thor", "author@example.com", "1234567890", "0").unwrap();
    let stored = stream(commit.write_data());
    let c = Commit::from_object_sha(&commit.encoded_sha(), Some(&stored)).unwrap();
    assert_eq!(c.message, b"init".to_vec());
    assert_eq!(c.tree_sha, from_hex(EMPTY_TREE).unwrap());
}

#[test]
fn from_object_sha_errors() {
    let blob = stream(b"blob 6\0hello\n");
    assert_eq!(from_object_sha("abc", Some(&blob)).err(), Some(LoadError::MalformedHash));
    assert_eq!(from_object_sha(&HELLO[..39], None).err(), Some(LoadError::MalformedHash));
    assert_eq!(from_object_sha(HELLO, None).err(), Some(LoadError::ObjectNotFound));
    assert_eq!(from_object_sha(HELLO, Some(b"junk")).err(), Some(LoadError::CorruptObject));
    assert_eq!(from_object_sha(EMPTY_TREE, Some(&blob)).err(), Some(LoadError::CorruptObject));
    assert_eq!(Tree::from_object_sha(HELLO, Some(&blob)).err(), Some(LoadError::WrongKind));
    assert_eq!(Commit::from_object_sha(HELLO, Some(&blob)).err(), Some(LoadError::WrongKind));
    let tree = stream(b"tree 0\0");
    assert_eq!(Blob::from_object_sha(EMPTY_TREE, Some(&tree)).err(), Some(LoadError::WrongKind));
}

#[test]
fn kinds_are_told_apart() {
    let blob = Object::Blob(Blob::new(b"x".to_vec()));
    let tree = Object::Tree(Tree::new(Vec::new()));
    assert!(blob_of(blob.clone()).is_ok());
    assert_eq!(tree_of(blob.clone()).err(), Some(LoadError::WrongKind));
    assert_eq!(commit_of(blob).err(), Some(LoadError::WrongKind));
    assert!(tree_of(tree.clone()).is_ok());
    assert_eq!(blob_of(tree).err(), Some(LoadError::WrongKind));
    assert_eq!(blob_of(Object::Tag(Vec::new())).err(), Some(LoadError::WrongKind));
}
