//! Blobs: file contents under their fingerprint.

use vstd::prelude::*;
use crate::frame::{frame, write_frame, ObjectKind};
use crate::hash::{digest, sha1_digest, to_hex, hex_lower};
use vstd::utf8::*;

verus! {

/// The canonical bytes of a blob.
pub open spec fn blob_bytes(contents: Seq<u8>) -> Seq<u8> {
    frame(ObjectKind::Blob.word(), contents)
}

/// File contents with their canonical bytes and fingerprint.
#[derive(Debug, Clone)]
pub struct Blob {
    pub contents: Vec<u8>,
    pub sha1_hash: [u8; 20],
    pub write_data: Vec<u8>,
}

impl View for Blob {
    type V = Seq<u8>;

    open spec fn view(&self) -> Seq<u8> {
        self.contents@
    }
}

impl Blob {
    /// The stored bytes and the fingerprint are those of the contents.
    pub open spec fn wf(&self) -> bool {
        &&& self.write_data@ == blob_bytes(self@)
        &&& self.sha1_hash@ == sha1_digest(self.write_data@)
    }

    /// The blob of the given contents.
    pub fn new(contents: Vec<u8>) -> (blob: Blob)
        ensures
            blob.wf(),
            blob.contents == contents,
    {
        let write_data = write_frame(ObjectKind::Blob, contents.as_slice());
        let sha1_hash = digest(write_data.as_slice());
        Blob { contents, sha1_hash, write_data }
    }

    /// The blob's fingerprint.
    pub fn sha1_hash(&self) -> (h: [u8; 20])
        ensures
            h == self.sha1_hash,
    {
        self.sha1_hash
    }

    /// The blob's fingerprint as 40 hex digits.
    pub fn encoded_hash(&self) -> (s: String)
        ensures
            encode_utf8(s@) == hex_lower(self.sha1_hash@),
    {
        to_hex(&self.sha1_hash)
    }

    /// The blob's canonical bytes.
    pub fn write_data(&self) -> (data: &Vec<u8>)
        ensures
            data == self.write_data,
    {
        &self.write_data
    }
}

} // verus!
