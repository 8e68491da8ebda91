//! What the object store computes: where an object lives, what is written
//! there, and what stored bytes hold. Reading and writing files is left to
//! the caller.

use vstd::prelude::*;
use vstd::slice::slice_subrange;
use vstd::utf8::*;
use crate::blob::Blob;
use crate::commit::Commit;
use crate::frame::{same, DecodeError};
use crate::hash::{
    digest, from_hex, hex_bytes, hex_encode, hex_lower, is_hash_text, sha1_digest,
};
use crate::object::{decode_object, encode_object, Object, ObjectView};
use crate::tree::Tree;
use crate::zlib::{zlib_compress, zlib_decompress, zlib_deflated, zlib_inflated, StoreError};

verus! {

/// Why stored bytes are not the object that was asked for.
#[derive(Debug, Clone, Copy, PartialEq, Eq, Structural)]
pub enum LoadError {
    /// The name is not 40 hex digits.
    MalformedHash,
    /// Nothing is stored under the name.
    ObjectNotFound,
    /// The stored bytes do not inflate, or hold another object than the
    /// name says.
    CorruptObject,
    /// The inflated bytes are no object.
    Malformed(DecodeError),
    /// The object is of another kind than was asked for.
    WrongKind,
}

/// The directory and file of an object under `objects/`: the first two
/// hex digits of its fingerprint, and the other 38.
pub fn object_location(hash: &[u8; 20]) -> (r: (String, String))
    ensures
        encode_utf8(r.0@) == hex_lower(hash@.subrange(0, 1)),
        encode_utf8(r.1@) == hex_lower(hash@.subrange(1, 20)),
        encode_utf8(r.0@) + encode_utf8(r.1@) == hex_lower(hash@),
        encode_utf8(r.0@).len() == 2,
        encode_utf8(r.1@).len() == 38,
{
    let all = hash.as_slice();
    let dir = hex_encode(slice_subrange(all, 0, 1));
    let file = hex_encode(slice_subrange(all, 1, 20));
    proof {
        let a = hex_lower(hash@.subrange(0, 1));
        let b = hex_lower(hash@.subrange(1, 20));
        assert forall|i: int| 0 <= i < 40 implies (a + b)[i] == hex_lower(hash@)[i] by {
            if i >= 2 {
                assert((i - 2) / 2 == i / 2 - 1);
                assert((i - 2) % 2 == i % 2);
            }
        }
        assert(a + b =~= hex_lower(hash@));
    }
    (dir, file)
}

/// What to do with the file of an object that is being stored.
#[derive(Debug, Clone)]
pub enum PutAction {
    /// A file is there already. It holds the same bytes, since its place
    /// is their fingerprint: nothing is written.
    Keep,
    /// No file is there: this zlib stream is to be written.
    Write(Vec<u8>),
}

/// What is done with the file of an object, given whether one exists and
/// what the encoder makes of the bytes: nothing is written where a file
/// exists (`Some(None)`); else the stream is written (`Some(Some(..))`);
/// there is no answer (`None`) only where a file has to be written and the
/// encoder gives no stream.
pub open spec fn put_outcome(exists: bool, deflated: Option<Seq<u8>>) -> Option<Option<Seq<u8>>> {
    if exists {
        Some(None)
    } else {
        match deflated {
            Some(stream) => Some(Some(stream)),
            None => None,
        }
    }
}

/// Stores bytes under their fingerprint. `exists` says whether a file is
/// already at the place that `object_location` gives for the fingerprint
/// of `bytes`. The answer holds the fingerprint and what to do with the
/// file: keep it where one exists, else write the zlib stream of the
/// bytes. It is `None` exactly where a file has to be written and the
/// encoder reports an error.
pub fn put(bytes: &[u8], exists: bool) -> (r: Option<([u8; 20], PutAction)>)
    ensures
        match put_outcome(exists, zlib_deflated(bytes@)) {
            Some(None) => r matches Some((hash, PutAction::Keep)) && hash@ == sha1_digest(bytes@),
            Some(Some(stream)) => r matches Some((hash, PutAction::Write(written))) && hash@
                == sha1_digest(bytes@) && written@ == stream,
            None => r.is_none(),
        },
{
    let hash = digest(bytes);
    if exists {
        Some((hash, PutAction::Keep))
    } else {
        match zlib_compress(bytes) {
            Some(stream) => Some((hash, PutAction::Write(stream))),
            None => None,
        }
    }
}

/// What the file of an object holds, inflated; `stored` is `None` where
/// the file does not exist.
pub fn get(stored: Option<&[u8]>) -> (r: Result<Vec<u8>, StoreError>)
    ensures
        match stored {
            None => r == Err::<Vec<u8>, StoreError>(StoreError::ObjectNotFound),
            Some(bytes) => match zlib_inflated(bytes@) {
                Some((out, _)) => r matches Ok(o) && o@ == out,
                None => r == Err::<Vec<u8>, StoreError>(StoreError::CorruptObject),
            },
        },
{
    match stored {
        None => Err(StoreError::ObjectNotFound),
        Some(bytes) => zlib_decompress(bytes),
    }
}

/// The object that inflated bytes hold, provided it is the one that the
/// fingerprint names.
pub open spec fn loaded(hash: Seq<u8>, bytes: Seq<u8>) -> Result<ObjectView, LoadError> {
    match decode_object(bytes) {
        Err(e) => Err(LoadError::Malformed(e)),
        Ok(v) => if sha1_digest(encode_object(v)) == hash {
            Ok(v)
        } else {
            Err(LoadError::CorruptObject)
        },
    }
}

/// Reads the object named `hash` from what `get` gave.
pub fn load(hash: &[u8; 20], fetched: Result<Vec<u8>, StoreError>) -> (r: Result<
    Object,
    LoadError,
>)
    ensures
        match fetched {
            Err(StoreError::ObjectNotFound) => r matches Err(e) && e == LoadError::ObjectNotFound,
            Err(StoreError::CorruptObject) => r matches Err(e) && e == LoadError::CorruptObject,
            Ok(bytes) => match loaded(hash@, bytes@) {
                Ok(v) => r matches Ok(o) && o@ == v && o.wf(),
                Err(e) => r matches Err(f) && f == e,
            },
        },
{
    let bytes = match fetched {
        Ok(bytes) => bytes,
        Err(StoreError::ObjectNotFound) => {
            return Err(LoadError::ObjectNotFound);
        },
        Err(StoreError::CorruptObject) => {
            return Err(LoadError::CorruptObject);
        },
    };
    let object = match Object::decode(bytes.as_slice()) {
        Ok(object) => object,
        Err(e) => {
            return Err(LoadError::Malformed(e));
        },
    };
    let found = object.sha1_hash();
    if same(found.as_slice(), hash.as_slice()) {
        Ok(object)
    } else {
        Err(LoadError::CorruptObject)
    }
}

/// The object with the given hex name, read from its file's bytes;
/// `stored` is `None` where the file does not exist.
pub open spec fn stored_object(name: Seq<u8>, stored: Option<Seq<u8>>) -> Result<
    ObjectView,
    LoadError,
> {
    if !is_hash_text(name) {
        Err(LoadError::MalformedHash)
    } else {
        match stored {
            None => Err(LoadError::ObjectNotFound),
            Some(bytes) => match zlib_inflated(bytes) {
                None => Err(LoadError::CorruptObject),
                Some((out, _)) => loaded(hex_bytes(name), out),
            },
        }
    }
}

/// The bytes behind an optional slice.
pub open spec fn bytes_of(stored: Option<&[u8]>) -> Option<Seq<u8>> {
    match stored {
        Some(bytes) => Some(bytes@),
        None => None,
    }
}

/// Reads the object with the given hex name from its file's bytes;
/// `stored` is `None` where the file does not exist.
pub fn from_object_sha(object_sha: &str, stored: Option<&[u8]>) -> (r: Result<Object, LoadError>)
    ensures
        match stored_object(encode_utf8(object_sha@), bytes_of(stored)) {
            Ok(v) => r matches Ok(o) && o@ == v && o.wf(),
            Err(e) => r matches Err(f) && f == e,
        },
{
    let hash = match from_hex(object_sha) {
        Ok(hash) => hash,
        Err(_e) => {
            return Err(LoadError::MalformedHash);
        },
    };
    load(&hash, get(stored))
}

impl Blob {
    /// Reads the blob with the given hex name from its file's bytes.
    pub fn from_object_sha(object_sha: &str, stored: Option<&[u8]>) -> (r: Result<Blob, LoadError>)
        ensures
            match stored_object(encode_utf8(object_sha@), bytes_of(stored)) {
                Ok(ObjectView::Blob(contents)) => r matches Ok(b) && b@ == contents && b.wf(),
                Ok(_) => r matches Err(f) && f == LoadError::WrongKind,
                Err(e) => r matches Err(f) && f == e,
            },
    {
        match from_object_sha(object_sha, stored) {
            Ok(object) => blob_of(object),
            Err(e) => Err(e),
        }
    }
}

impl Tree {
    /// Reads the tree with the given hex name from its file's bytes.
    pub fn from_object_sha(object_sha: &str, stored: Option<&[u8]>) -> (r: Result<Tree, LoadError>)
        ensures
            match stored_object(encode_utf8(object_sha@), bytes_of(stored)) {
                Ok(ObjectView::Tree(entries)) => r matches Ok(t) && t@ == entries && t.wf(),
                Ok(_) => r matches Err(f) && f == LoadError::WrongKind,
                Err(e) => r matches Err(f) && f == e,
            },
    {
        match from_object_sha(object_sha, stored) {
            Ok(object) => tree_of(object),
            Err(e) => Err(e),
        }
    }
}

impl Commit {
    /// Reads the commit with the given hex name from its file's bytes.
    pub fn from_object_sha(object_sha: &str, stored: Option<&[u8]>) -> (r: Result<
        Commit,
        LoadError,
    >)
        ensures
            match stored_object(encode_utf8(object_sha@), bytes_of(stored)) {
                Ok(ObjectView::Commit(c)) => r matches Ok(x) && x@ == c && x.wf(),
                Ok(_) => r matches Err(f) && f == LoadError::WrongKind,
                Err(e) => r matches Err(f) && f == e,
            },
    {
        match from_object_sha(object_sha, stored) {
            Ok(object) => commit_of(object),
            Err(e) => Err(e),
        }
    }
}

/// The blob that an object is, or `WrongKind`.
pub fn blob_of(object: Object) -> (r: Result<Blob, LoadError>)
    ensures
        match object {
            Object::Blob(b) => r == Ok::<Blob, LoadError>(b),
            _ => r matches Err(e) && e == LoadError::WrongKind,
        },
{
    match object {
        Object::Blob(b) => Ok(b),
        _ => Err(LoadError::WrongKind),
    }
}

/// The tree that an object is, or `WrongKind`.
pub fn tree_of(object: Object) -> (r: Result<Tree, LoadError>)
    ensures
        match object {
            Object::Tree(t) => r == Ok::<Tree, LoadError>(t),
            _ => r matches Err(e) && e == LoadError::WrongKind,
        },
{
    match object {
        Object::Tree(t) => Ok(t),
        _ => Err(LoadError::WrongKind),
    }
}

/// The commit that an object is, or `WrongKind`.
pub fn commit_of(object: Object) -> (r: Result<Commit, LoadError>)
    ensures
        match object {
            Object::Commit(c) => r == Ok::<Commit, LoadError>(c),
            _ => r matches Err(e) && e == LoadError::WrongKind,
        },
{
    match object {
        Object::Commit(c) => Ok(c),
        _ => Err(LoadError::WrongKind),
    }
}

} // verus!
