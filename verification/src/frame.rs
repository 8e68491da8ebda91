//! The common frame of every stored object: `<kind> <length>\0<payload>`.

use vstd::prelude::*;
use crate::text::{decimal, decimal_digits, decimal_value, find, find_byte, is_digits, lemma_decimal_roundtrip, parse_decimal};

verus! {

/// The kinds of object that a frame can announce.
#[derive(Debug, Clone, Copy, PartialEq, Eq, Structural)]
pub enum ObjectKind {
    Blob,
    Tree,
    Commit,
    Tag,
}

/// Why a byte string is not an object.
#[derive(Debug, Clone, Copy, PartialEq, Eq, Structural)]
pub enum DecodeError {
    /// The header is missing or its length disagrees with the payload, or a
    /// commit's fields are cut short.
    FramingError,
    /// The header names a kind other than blob, tree, commit or tag.
    UnknownObjectKind,
    /// A tree's payload ends inside an entry.
    TruncatedTree,
}

impl ObjectKind {
    /// The word that names the kind in a frame.
    pub open spec fn word(self) -> Seq<u8> {
        match self {
            ObjectKind::Blob => seq![98u8, 108, 111, 98],
            ObjectKind::Tree => seq![116u8, 114, 101, 101],
            ObjectKind::Commit => seq![99u8, 111, 109, 109, 105, 116],
            ObjectKind::Tag => seq![116u8, 97, 103],
        }
    }

    /// The kind's word as bytes.
    pub fn word_bytes(&self) -> (w: Vec<u8>)
        ensures
            w@ == self.word(),
    {
        let mut w: Vec<u8> = Vec::new();
        match self {
            ObjectKind::Blob => {
                w.push(98);
                w.push(108);
                w.push(111);
                w.push(98);
            },
            ObjectKind::Tree => {
                w.push(116);
                w.push(114);
                w.push(101);
                w.push(101);
            },
            ObjectKind::Commit => {
                w.push(99);
                w.push(111);
                w.push(109);
                w.push(109);
                w.push(105);
                w.push(116);
            },
            ObjectKind::Tag => {
                w.push(116);
                w.push(97);
                w.push(103);
            },
        }
        assert(w@ =~= self.word());
        w
    }
}

/// The kind that a word names, if any.
pub open spec fn kind_of_word(word: Seq<u8>) -> Option<ObjectKind> {
    if word == ObjectKind::Blob.word() {
        Some(ObjectKind::Blob)
    } else if word == ObjectKind::Tree.word() {
        Some(ObjectKind::Tree)
    } else if word == ObjectKind::Commit.word() {
        Some(ObjectKind::Commit)
    } else if word == ObjectKind::Tag.word() {
        Some(ObjectKind::Tag)
    } else {
        None
    }
}

/// A payload under its header.
pub open spec fn frame(word: Seq<u8>, payload: Seq<u8>) -> Seq<u8> {
    word + seq![32u8] + decimal(payload.len()) + seq![0u8] + payload
}

/// The word and payload of a well-formed frame: the word ends at the first
/// space, the length at the first NUL after it, and the length counts
/// exactly the bytes that follow.
pub open spec fn split_frame(bytes: Seq<u8>) -> Option<(Seq<u8>, Seq<u8>)> {
    let sp = find_byte(bytes, 32, 0);
    let nul = find_byte(bytes, 0, sp + 1);
    if sp < bytes.len() && nul < bytes.len() {
        let digits = bytes.subrange(sp + 1, nul);
        let payload = bytes.subrange(nul + 1, bytes.len() as int);
        if digits.len() > 0 && is_digits(digits) && decimal_value(digits) == payload.len() {
            Some((bytes.subrange(0, sp), payload))
        } else {
            None
        }
    } else {
        None
    }
}

/// `s` holds no byte `b`.
pub open spec fn lacks(s: Seq<u8>, b: u8) -> bool {
    forall|i: int| 0 <= i < s.len() ==> #[trigger] s[i] != b
}

/// In `prefix + [b] + rest`, the first `b` at or after `from` is at the end
/// of `prefix`, when `prefix` holds none from `from` on.
pub proof fn lemma_find_after_prefix(prefix: Seq<u8>, b: u8, rest: Seq<u8>, from: int)
    requires
        0 <= from <= prefix.len(),
        forall|i: int| from <= i < prefix.len() ==> prefix[i] != b,
    ensures
        find_byte(prefix + seq![b] + rest, b, from) == prefix.len(),
    decreases prefix.len() - from,
{
    let s = prefix + seq![b] + rest;
    if from < prefix.len() {
        assert(s[from] == prefix[from]);
        lemma_find_after_prefix(prefix, b, rest, from + 1);
    } else {
        assert(s[from] == b);
    }
}

/// Splitting a frame gives back its word and payload, for a word without a
/// space.
pub proof fn lemma_split_frame(word: Seq<u8>, payload: Seq<u8>)
    requires
        lacks(word, 32),
    ensures
        split_frame(frame(word, payload)) == Some((word, payload)),
{
    let digits = decimal(payload.len());
    let bytes = frame(word, payload);
    lemma_decimal_roundtrip(payload.len());
    let head = word + seq![32u8] + digits;
    assert(bytes =~= word + seq![32u8] + (digits + seq![0u8] + payload));
    lemma_find_after_prefix(word, 32, digits + seq![0u8] + payload, 0);
    let sp = word.len() as int;
    assert(find_byte(bytes, 32, 0) == sp);
    assert(bytes =~= head + seq![0u8] + payload);
    assert forall|i: int| sp + 1 <= i < head.len() implies head[i] != 0u8 by {
        assert(head[i] == digits[i - sp - 1]);
    }
    lemma_find_after_prefix(head, 0, payload, sp + 1);
    let nul = head.len() as int;
    assert(bytes.subrange(sp + 1, nul) =~= digits);
    assert(bytes.subrange(nul + 1, bytes.len() as int) =~= payload);
    assert(bytes.subrange(0, sp) =~= word);
}

/// A copy of `bytes[start..end]`.
pub(crate) fn copy_range(bytes: &[u8], start: usize, end: usize) -> (r: Vec<u8>)
    requires
        start <= end <= bytes@.len(),
    ensures
        r@ == bytes@.subrange(start as int, end as int),
{
    let mut r: Vec<u8> = Vec::new();
    let mut i: usize = start;
    while i < end
        invariant
            start <= i <= end <= bytes@.len(),
            r@ == bytes@.subrange(start as int, i as int),
        decreases end - i,
    {
        r.push(bytes[i]);
        i = i + 1;
        assert(r@ =~= bytes@.subrange(start as int, i as int));
    }
    r
}

/// Appends `src` to `dst`.
pub fn append(dst: &mut Vec<u8>, src: &[u8])
    ensures
        final(dst)@ == old(dst)@ + src@,
{
    let mut i: usize = 0;
    while i < src.len()
        invariant
            i <= src@.len(),
            dst@ == old(dst)@ + src@.subrange(0, i as int),
        decreases src@.len() - i,
    {
        dst.push(src[i]);
        i = i + 1;
        assert(dst@ =~= old(dst)@ + src@.subrange(0, i as int));
    }
    assert(src@.subrange(0, i as int) =~= src@);
}

/// Puts a payload under the header of its kind.
pub fn write_frame(kind: ObjectKind, payload: &[u8]) -> (r: Vec<u8>)
    ensures
        r@ == frame(kind.word(), payload@),
{
    let mut r = kind.word_bytes();
    r.push(32);
    let digits = decimal_digits(payload.len());
    append(&mut r, digits.as_slice());
    r.push(0);
    append(&mut r, payload);
    assert(r@ =~= frame(kind.word(), payload@));
    r
}

/// Reads a frame's header: the kind and the index where the payload starts.
pub fn read_frame(bytes: &[u8]) -> (r: Result<(ObjectKind, usize), DecodeError>)
    ensures
        match split_frame(bytes@) {
            None => r == Err::<(ObjectKind, usize), DecodeError>(DecodeError::FramingError),
            Some((word, payload)) => match kind_of_word(word) {
                None => r == Err::<(ObjectKind, usize), DecodeError>(
                    DecodeError::UnknownObjectKind,
                ),
                Some(kind) => r matches Ok((k, start)) && k == kind && start <= bytes@.len()
                    && payload == bytes@.subrange(start as int, bytes@.len() as int),
            },
        },
{
    let sp = find(bytes, 32, 0);
    if sp >= bytes.len() {
        return Err(DecodeError::FramingError);
    }
    let nul = find(bytes, 0, sp + 1);
    if nul >= bytes.len() {
        return Err(DecodeError::FramingError);
    }
    let declared = match parse_decimal(bytes, sp + 1, nul) {
        Some(n) => n,
        None => {
            return Err(DecodeError::FramingError);
        },
    };
    if declared != bytes.len() - nul - 1 {
        return Err(DecodeError::FramingError);
    }
    let word = copy_range(bytes, 0, sp);
    let blob = ObjectKind::Blob.word_bytes();
    let tree = ObjectKind::Tree.word_bytes();
    let commit = ObjectKind::Commit.word_bytes();
    let tag = ObjectKind::Tag.word_bytes();
    if same(word.as_slice(), blob.as_slice()) {
        Ok((ObjectKind::Blob, nul + 1))
    } else if same(word.as_slice(), tree.as_slice()) {
        Ok((ObjectKind::Tree, nul + 1))
    } else if same(word.as_slice(), commit.as_slice()) {
        Ok((ObjectKind::Commit, nul + 1))
    } else if same(word.as_slice(), tag.as_slice()) {
        Ok((ObjectKind::Tag, nul + 1))
    } else {
        Err(DecodeError::UnknownObjectKind)
    }
}

/// Whether two byte strings are equal.
pub fn same(a: &[u8], b: &[u8]) -> (r: bool)
    ensures
        r == (a@ == b@),
{
    if a.len() != b.len() {
        return false;
    }
    let mut i: usize = 0;
    while i < a.len()
        invariant
            i <= a@.len(),
            a@.len() == b@.len(),
            a@.subrange(0, i as int) == b@.subrange(0, i as int),
        decreases a@.len() - i,
    {
        if a[i] != b[i] {
            return false;
        }
        i = i + 1;
        assert(a@.subrange(0, i as int) =~= a@.subrange(0, i - 1).push(a@[i - 1]));
        assert(b@.subrange(0, i as int) =~= b@.subrange(0, i - 1).push(b@[i - 1]));
    }
    assert(a@.subrange(0, i as int) =~= a@);
    assert(b@.subrange(0, i as int) =~= b@);
    true
}

} // verus!
