//! Objects of every kind, and the codec between them and their canonical
//! bytes.

use vstd::prelude::*;
use crate::blob::{blob_bytes, Blob};
use crate::commit::{
    commit_bytes, encode_commit, lemma_commit_roundtrip, parse_commit, read_commit, valid_commit,
    Commit, CommitView,
};
use crate::frame::{
    copy_range, frame, kind_of_word, lemma_split_frame, read_frame, split_frame, write_frame,
    DecodeError, ObjectKind,
};
use crate::hash::sha1_digest;
use crate::tree::{
    distinct_names, entries_bytes, is_sorted, lemma_parse_entries_roundtrip,
    lemma_sorted_is_fixed, lemma_tree_bytes_ignore_order, parse_entries, parse_tree,
    sorted_entries, tree_bytes, tree_payload, valid_entry, EntryView, Tree,
};

verus! {

/// What an object says, whatever its kind.
pub enum ObjectView {
    Blob(Seq<u8>),
    Tree(Seq<EntryView>),
    Commit(CommitView),
    Tag(Seq<u8>),
}

/// An object of any kind. A tag is kept as its payload.
#[derive(Debug, Clone)]
pub enum Object {
    Blob(Blob),
    Tree(Tree),
    Commit(Commit),
    Tag(Vec<u8>),
}

impl View for Object {
    type V = ObjectView;

    open spec fn view(&self) -> ObjectView {
        match self {
            Object::Blob(b) => ObjectView::Blob(b@),
            Object::Tree(t) => ObjectView::Tree(t@),
            Object::Commit(c) => ObjectView::Commit(c@),
            Object::Tag(p) => ObjectView::Tag(p@),
        }
    }
}

/// The canonical bytes of an object. A tree's entries are put in order of
/// name first, so the bytes do not depend on the order they came in.
pub open spec fn encode_object(v: ObjectView) -> Seq<u8> {
    match v {
        ObjectView::Blob(contents) => blob_bytes(contents),
        ObjectView::Tree(entries) => tree_bytes(entries),
        ObjectView::Commit(c) => commit_bytes(c),
        ObjectView::Tag(payload) => frame(ObjectKind::Tag.word(), payload),
    }
}

/// The payload of an object: what its canonical bytes hold after the
/// header.
pub open spec fn object_payload(v: ObjectView) -> Seq<u8> {
    match v {
        ObjectView::Blob(contents) => contents,
        ObjectView::Tree(entries) => entries_bytes(sorted_entries(entries)),
        ObjectView::Commit(c) => crate::commit::commit_payload(c),
        ObjectView::Tag(payload) => payload,
    }
}

/// The kind of an object.
pub open spec fn object_kind(v: ObjectView) -> ObjectKind {
    match v {
        ObjectView::Blob(_) => ObjectKind::Blob,
        ObjectView::Tree(_) => ObjectKind::Tree,
        ObjectView::Commit(_) => ObjectKind::Commit,
        ObjectView::Tag(_) => ObjectKind::Tag,
    }
}

/// The object that a byte string holds. The header is checked first, then
/// the kind, then the payload; a tree's entries come out in order of name.
pub open spec fn decode_object(bytes: Seq<u8>) -> Result<ObjectView, DecodeError> {
    match split_frame(bytes) {
        None => Err(DecodeError::FramingError),
        Some((word, payload)) => match kind_of_word(word) {
            None => Err(DecodeError::UnknownObjectKind),
            Some(ObjectKind::Blob) => Ok(ObjectView::Blob(payload)),
            Some(ObjectKind::Tag) => Ok(ObjectView::Tag(payload)),
            Some(ObjectKind::Tree) => match parse_entries(payload, 0) {
                Some(entries) => Ok(ObjectView::Tree(sorted_entries(entries))),
                None => Err(DecodeError::TruncatedTree),
            },
            Some(ObjectKind::Commit) => match parse_commit(payload) {
                Some(c) => Ok(ObjectView::Commit(c)),
                None => Err(DecodeError::FramingError),
            },
        },
    }
}

/// An object in canonical form: a tree's entries are valid and in order of
/// name, a commit's fields can be read back.
pub open spec fn valid_object(v: ObjectView) -> bool {
    match v {
        ObjectView::Blob(_) => true,
        ObjectView::Tree(entries) => is_sorted(entries) && forall|i: int|
            0 <= i < entries.len() ==> valid_entry(#[trigger] entries[i]),
        ObjectView::Commit(c) => valid_commit(c),
        ObjectView::Tag(_) => true,
    }
}

impl Object {
    /// The parts of the object agree with each other.
    pub open spec fn wf(&self) -> bool {
        match self {
            Object::Blob(b) => b.wf(),
            Object::Tree(t) => t.wf(),
            Object::Commit(c) => c.wf(),
            Object::Tag(_) => true,
        }
    }

    /// The kind of the object.
    pub fn kind(&self) -> (k: ObjectKind)
        ensures
            k == object_kind(self@),
    {
        match self {
            Object::Blob(_) => ObjectKind::Blob,
            Object::Tree(_) => ObjectKind::Tree,
            Object::Commit(_) => ObjectKind::Commit,
            Object::Tag(_) => ObjectKind::Tag,
        }
    }

    /// The payload of the object: its canonical bytes without the header.
    pub fn payload(&self) -> (bytes: Vec<u8>)
        ensures
            bytes@ == object_payload(self@),
    {
        match self {
            Object::Blob(b) => {
                let d = b.contents.as_slice();
                assert(d@.subrange(0, d@.len() as int) =~= d@);
                copy_range(d, 0, d.len())
            },
            Object::Tree(t) => tree_payload(&t.entries),
            Object::Commit(c) => encode_commit(
                &c.tree_sha,
                &c.parents,
                &c.author,
                &c.committer,
                c.message.as_slice(),
            ),
            Object::Tag(p) => {
                let d = p.as_slice();
                assert(d@.subrange(0, d@.len() as int) =~= d@);
                copy_range(d, 0, d.len())
            },
        }
    }

    /// The canonical bytes of the object.
    pub fn encode(&self) -> (bytes: Vec<u8>)
        ensures
            bytes@ == encode_object(self@),
    {
        let payload = self.payload();
        write_frame(self.kind(), payload.as_slice())
    }

    /// The fingerprint of the object: the digest of its canonical bytes.
    pub fn sha1_hash(&self) -> (h: [u8; 20])
        ensures
            h@ == sha1_digest(encode_object(self@)),
    {
        let bytes = self.encode();
        crate::hash::digest(bytes.as_slice())
    }

    /// Reads an object from bytes in the common frame.
    pub fn decode(bytes: &[u8]) -> (r: Result<Object, DecodeError>)
        ensures
            match decode_object(bytes@) {
                Ok(v) => r matches Ok(o) && o@ == v && o.wf(),
                Err(e) => r matches Err(f) && f == e,
            },
    {
        let (kind, start) = match read_frame(bytes) {
            Ok(found) => found,
            Err(e) => {
                return Err(e);
            },
        };
        let payload = copy_range(bytes, start, bytes.len());
        match kind {
            ObjectKind::Blob => Ok(Object::Blob(Blob::new(payload))),
            ObjectKind::Tag => Ok(Object::Tag(payload)),
            ObjectKind::Tree => match parse_tree(payload.as_slice()) {
                Ok(entries) => Ok(Object::Tree(Tree::new(entries))),
                Err(e) => Err(e),
            },
            ObjectKind::Commit => match read_commit(payload.as_slice()) {
                Some(c) => Ok(Object::Commit(c)),
                None => Err(DecodeError::FramingError),
            },
        }
    }
}

/// Decoding the canonical bytes of a valid object gives the object back.
pub proof fn lemma_decode_encode(v: ObjectView)
    requires
        valid_object(v),
    ensures
        decode_object(encode_object(v)) == Ok::<ObjectView, DecodeError>(v),
{
    match v {
        ObjectView::Blob(contents) => {
            lemma_split_frame(ObjectKind::Blob.word(), contents);
        },
        ObjectView::Tag(payload) => {
            lemma_split_frame(ObjectKind::Tag.word(), payload);
        },
        ObjectView::Tree(entries) => {
            lemma_sorted_is_fixed(entries);
            lemma_split_frame(ObjectKind::Tree.word(), entries_bytes(entries));
            lemma_parse_entries_roundtrip(entries);
        },
        ObjectView::Commit(c) => {
            lemma_split_frame(ObjectKind::Commit.word(), crate::commit::commit_payload(c));
            lemma_commit_roundtrip(c);
        },
    }
}

/// The canonical bytes of a tree are the same for every order that its
/// entries are given in, when no two entries share a name.
pub proof fn lemma_encode_ignores_order(a: Seq<EntryView>, b: Seq<EntryView>)
    requires
        distinct_names(a),
        a.to_multiset() == b.to_multiset(),
    ensures
        encode_object(ObjectView::Tree(a)) == encode_object(ObjectView::Tree(b)),
{
    lemma_tree_bytes_ignore_order(a, b);
}

} // verus!
