//! Commits: a tree, its parents, who made it and why.

use vstd::prelude::*;
use vstd::string::*;
use vstd::utf8::*;
use crate::frame::{
    append, copy_range, frame, lacks, lemma_find_after_prefix, write_frame, ObjectKind,
};
use crate::hash::{
    all_hex, digest, from_hex, hex_bytes, hex_lower, hex_of, is_hash_text, lemma_hex_roundtrip,
    parse_hex, sha1_digest, HashError,
};
use crate::text::{find, find_byte};

verus! {

/// Who did something, and when.
pub struct PersonView {
    pub name: Seq<u8>,
    pub email: Seq<u8>,
    pub timestamp: Seq<u8>,
    pub tz_offset: Seq<u8>,
}

/// What a commit says.
pub struct CommitView {
    pub tree: Seq<u8>,
    pub parents: Seq<Seq<u8>>,
    pub author: PersonView,
    pub committer: PersonView,
    pub message: Seq<u8>,
}

/// The word `parent`.
pub open spec fn word_parent() -> Seq<u8> {
    seq![112u8, 97, 114, 101, 110, 116]
}

/// The word `author`.
pub open spec fn word_author() -> Seq<u8> {
    seq![97u8, 117, 116, 104, 111, 114]
}

/// The word `committer`.
pub open spec fn word_committer() -> Seq<u8> {
    seq![99u8, 111, 109, 109, 105, 116, 116, 101, 114]
}

/// The line `<word> <40 hex digits>\n`.
pub open spec fn hash_line(word: Seq<u8>, hash: Seq<u8>) -> Seq<u8> {
    word + seq![32u8] + hex_lower(hash) + seq![10u8]
}

/// One `parent` line for each parent, in order.
pub open spec fn parent_lines(parents: Seq<Seq<u8>>) -> Seq<u8>
    decreases parents.len(),
{
    if parents.len() == 0 {
        Seq::empty()
    } else {
        hash_line(word_parent(), parents[0]) + parent_lines(parents.skip(1))
    }
}

/// The line `<label> <name> <<email>> <timestamp> <offset>\n`.
pub open spec fn person_line(label: Seq<u8>, p: PersonView) -> Seq<u8> {
    label + seq![32u8] + p.name + seq![32u8, 60u8] + p.email + seq![62u8, 32u8] + p.timestamp
        + seq![32u8] + p.tz_offset + seq![10u8]
}

/// The payload of a commit: the tree, the parents, author and committer,
/// a blank line, the message.
pub open spec fn commit_payload(c: CommitView) -> Seq<u8> {
    hash_line(ObjectKind::Tree.word(), c.tree) + parent_lines(c.parents) + person_line(
        word_author(),
        c.author,
    ) + person_line(word_committer(), c.committer) + seq![10u8] + c.message
}

/// The canonical bytes of a commit.
pub open spec fn commit_bytes(c: CommitView) -> Seq<u8> {
    frame(ObjectKind::Commit.word(), commit_payload(c))
}

/// `w` stands in `s` at index `pos`.
pub open spec fn starts_at(s: Seq<u8>, pos: int, w: Seq<u8>) -> bool {
    0 <= pos && pos + w.len() <= s.len() && s.subrange(pos, pos + w.len()) == w
}

/// The fingerprint on a line `<word> <40 hex digits>\n` at `pos`, and the
/// index after the line.
pub open spec fn parse_hash_line(s: Seq<u8>, pos: int, word: Seq<u8>) -> Option<(Seq<u8>, int)> {
    let start = pos + word.len() + 1;
    if starts_at(s, pos, word + seq![32u8]) && start + 40 < s.len() && all_hex(
        s.subrange(start, start + 40),
    ) && s[start + 40] == 10 {
        Some((hex_bytes(s.subrange(start, start + 40)), start + 41))
    } else {
        None
    }
}

/// The fingerprints on the `parent` lines from `pos` on, and the index
/// after the last of them.
pub open spec fn parse_parents(s: Seq<u8>, pos: int) -> (Seq<Seq<u8>>, int)
    decreases s.len() - pos,
{
    match parse_hash_line(s, pos, word_parent()) {
        Some((hash, next)) => {
            let (rest, end) = parse_parents(s, next);
            (seq![hash] + rest, end)
        },
        None => (Seq::empty(), pos),
    }
}

/// The person on the line at `pos` that starts with `label`, and the index
/// after the line.
pub open spec fn parse_person(s: Seq<u8>, pos: int, label: Seq<u8>) -> Option<(PersonView, int)> {
    let start = pos + label.len() + 1;
    let nl = find_byte(s, 10, start);
    let lt = find_byte(s, 60, start);
    let gt = find_byte(s, 62, lt + 1);
    let sp = find_byte(s, 32, gt + 2);
    if starts_at(s, pos, label + seq![32u8]) && start < lt && lt < gt && gt + 1 < sp && sp < nl
        && nl < s.len() && s[lt - 1] == 32 && s[gt + 1] == 32 {
        Some(
            (
                PersonView {
                    name: s.subrange(start, lt - 1),
                    email: s.subrange(lt + 1, gt),
                    timestamp: s.subrange(gt + 2, sp),
                    tz_offset: s.subrange(sp + 1, nl),
                },
                nl + 1,
            ),
        )
    } else {
        None
    }
}

/// What a commit's payload says, or `None` when a field is missing or cut
/// short.
pub open spec fn parse_commit(s: Seq<u8>) -> Option<CommitView> {
    match parse_hash_line(s, 0, ObjectKind::Tree.word()) {
        None => None,
        Some((tree, at1)) => {
            let (parents, at2) = parse_parents(s, at1);
            match parse_person(s, at2, word_author()) {
                None => None,
                Some((author, at3)) => match parse_person(s, at3, word_committer()) {
                    None => None,
                    Some((committer, at4)) => if at4 < s.len() && s[at4] == 10 {
                        Some(
                            CommitView {
                                tree,
                                parents,
                                author,
                                committer,
                                message: s.subrange(at4 + 1, s.len() as int),
                            },
                        )
                    } else {
                        None
                    },
                },
            }
        },
    }
}

/// Who did something, and when: the time in seconds and the offset of the
/// local time zone, both as text.
#[derive(Debug, Clone)]
pub struct User {
    pub name: Vec<u8>,
    pub email: Vec<u8>,
    pub timestamp: Vec<u8>,
    pub tz_offset: Vec<u8>,
}

impl View for User {
    type V = PersonView;

    open spec fn view(&self) -> PersonView {
        PersonView {
            name: self.name@,
            email: self.email@,
            timestamp: self.timestamp@,
            tz_offset: self.tz_offset@,
        }
    }
}

/// A commit under its fingerprint.
#[derive(Debug, Clone)]
pub struct Commit {
    pub tree_sha: [u8; 20],
    pub parents: Vec<[u8; 20]>,
    pub author: User,
    pub committer: User,
    pub message: Vec<u8>,
    pub sha1_hash: [u8; 20],
    pub write_data: Vec<u8>,
}

/// The fingerprints of a run of parents, as byte strings.
pub open spec fn hash_views(s: Seq<[u8; 20]>) -> Seq<Seq<u8>> {
    s.map_values(|h: [u8; 20]| h@)
}

impl View for Commit {
    type V = CommitView;

    open spec fn view(&self) -> CommitView {
        CommitView {
            tree: self.tree_sha@,
            parents: hash_views(self.parents@),
            author: self.author@,
            committer: self.committer@,
            message: self.message@,
        }
    }
}

/// Appends the line `<word> <hex of hash>\n`.
fn push_hash_line(out: &mut Vec<u8>, word: &[u8], hash: &[u8; 20])
    ensures
        final(out)@ == old(out)@ + hash_line(word@, hash@),
{
    append(out, word);
    out.push(32);
    let hex = hex_of(hash);
    append(out, hex.as_slice());
    out.push(10);
    assert(out@ =~= old(out)@ + hash_line(word@, hash@));
}

/// Appends the line of one person.
fn push_person_line(out: &mut Vec<u8>, label: &[u8], person: &User)
    ensures
        final(out)@ == old(out)@ + person_line(label@, person@),
{
    append(out, label);
    out.push(32);
    append(out, person.name.as_slice());
    out.push(32);
    out.push(60);
    append(out, person.email.as_slice());
    out.push(62);
    out.push(32);
    append(out, person.timestamp.as_slice());
    out.push(32);
    append(out, person.tz_offset.as_slice());
    out.push(10);
    assert(out@ =~= old(out)@ + person_line(label@, person@));
}

/// The word `parent` as bytes.
fn parent_word() -> (w: Vec<u8>)
    ensures
        w@ == word_parent(),
{
    let mut w: Vec<u8> = Vec::new();
    w.push(112);
    w.push(97);
    w.push(114);
    w.push(101);
    w.push(110);
    w.push(116);
    assert(w@ =~= word_parent());
    w
}

/// The word `author` as bytes.
fn author_word() -> (w: Vec<u8>)
    ensures
        w@ == word_author(),
{
    let mut w: Vec<u8> = Vec::new();
    w.push(97);
    w.push(117);
    w.push(116);
    w.push(104);
    w.push(111);
    w.push(114);
    assert(w@ =~= word_author());
    w
}

/// The word `committer` as bytes.
fn committer_word() -> (w: Vec<u8>)
    ensures
        w@ == word_committer(),
{
    let mut w: Vec<u8> = Vec::new();
    w.push(99);
    w.push(111);
    w.push(109);
    w.push(109);
    w.push(105);
    w.push(116);
    w.push(116);
    w.push(101);
    w.push(114);
    assert(w@ =~= word_committer());
    w
}

/// The payload of a commit with the given fields.
pub fn encode_commit(
    tree_sha: &[u8; 20],
    parents: &Vec<[u8; 20]>,
    author: &User,
    committer: &User,
    message: &[u8],
) -> (out: Vec<u8>)
    ensures
        out@ == commit_payload(
            CommitView {
                tree: tree_sha@,
                parents: hash_views(parents@),
                author: author@,
                committer: committer@,
                message: message@,
            },
        ),
{
    let ghost ps = hash_views(parents@);
    let mut out: Vec<u8> = Vec::new();
    let tree_word = ObjectKind::Tree.word_bytes();
    push_hash_line(&mut out, tree_word.as_slice(), tree_sha);
    let ghost head = out@;
    let parent = parent_word();
    let mut i: usize = 0;
    proof {
        assert(ps.skip(0) =~= ps);
        assert(out@ + parent_lines(ps) =~= head + parent_lines(ps));
    }
    while i < parents.len()
        invariant
            i <= parents@.len(),
            ps == hash_views(parents@),
            parent@ == word_parent(),
            out@ + parent_lines(ps.skip(i as int)) == head + parent_lines(ps),
        decreases parents@.len() - i,
    {
        let ghost before = out@;
        push_hash_line(&mut out, parent.as_slice(), &parents[i]);
        proof {
            let tail = ps.skip(i as int);
            assert(tail[0] == parents@[i as int]@);
            assert(tail.skip(1) =~= ps.skip(i + 1));
            assert(out@ + parent_lines(ps.skip(i + 1)) =~= before + parent_lines(tail));
        }
        i = i + 1;
    }
    proof {
        assert(parent_lines(ps.skip(i as int)) =~= Seq::<u8>::empty());
        assert(out@ =~= head + parent_lines(ps));
    }
    let author_label = author_word();
    push_person_line(&mut out, author_label.as_slice(), author);
    let committer_label = committer_word();
    push_person_line(&mut out, committer_label.as_slice(), committer);
    out.push(10);
    append(&mut out, message);
    proof {
        assert(head =~= hash_line(ObjectKind::Tree.word(), tree_sha@));
    }
    out
}

/// A person from text fields.
pub fn person(name: &str, email: &str, timestamp: &str, tz_offset: &str) -> (p: User)
    ensures
        p@ == (PersonView {
            name: encode_utf8(name@),
            email: encode_utf8(email@),
            timestamp: encode_utf8(timestamp@),
            tz_offset: encode_utf8(tz_offset@),
        }),
{
    let n = name.as_bytes();
    let e = email.as_bytes();
    let t = timestamp.as_bytes();
    let z = tz_offset.as_bytes();
    assert(n@.subrange(0, n@.len() as int) =~= n@);
    assert(e@.subrange(0, e@.len() as int) =~= e@);
    assert(t@.subrange(0, t@.len() as int) =~= t@);
    assert(z@.subrange(0, z@.len() as int) =~= z@);
    User {
        name: copy_range(n, 0, n.len()),
        email: copy_range(e, 0, e.len()),
        timestamp: copy_range(t, 0, t.len()),
        tz_offset: copy_range(z, 0, z.len()),
    }
}

impl Commit {
    /// The stored bytes and the fingerprint are those of the fields.
    pub open spec fn wf(&self) -> bool {
        &&& self.write_data@ == commit_bytes(self@)
        &&& self.sha1_hash@ == sha1_digest(self.write_data@)
    }

    /// The commit with the given fields.
    pub fn from_parts(
        tree_sha: [u8; 20],
        parents: Vec<[u8; 20]>,
        author: User,
        committer: User,
        message: Vec<u8>,
    ) -> (commit: Commit)
        ensures
            commit.wf(),
            commit.tree_sha == tree_sha,
            commit.parents == parents,
            commit.author == author,
            commit.committer == committer,
            commit.message == message,
    {
        let payload = encode_commit(&tree_sha, &parents, &author, &committer, message.as_slice());
        let write_data = write_frame(ObjectKind::Commit, payload.as_slice());
        let sha1_hash = digest(write_data.as_slice());
        Commit { tree_sha, parents, author, committer, message, sha1_hash, write_data }
    }

    /// The commit's fingerprint.
    pub fn sha1_hash(&self) -> (h: [u8; 20])
        ensures
            h == self.sha1_hash,
    {
        self.sha1_hash
    }

    /// The commit of a tree given by its hex fingerprint, with at most one
    /// parent, made and committed by the same person at the same time.
    pub fn new(
        tree_sha: &str,
        parent_sha: Option<&str>,
        message: &str,
        name: &str,
        email: &str,
        timestamp: &str,
        tz_offset: &str,
    ) -> (r: Result<Commit, HashError>)
        ensures
            r.is_ok() <==> is_hash_text(encode_utf8(tree_sha@)) && (parent_sha matches Some(p)
                ==> is_hash_text(encode_utf8(p@))),
            r matches Err(e) ==> e == HashError::MalformedHash,
            r matches Ok(c) ==> {
                let person = PersonView {
                    name: encode_utf8(name@),
                    email: encode_utf8(email@),
                    timestamp: encode_utf8(timestamp@),
                    tz_offset: encode_utf8(tz_offset@),
                };
                &&& c.wf()
                &&& c@.tree == hex_bytes(encode_utf8(tree_sha@))
                &&& c@.parents == match parent_sha {
                    Some(p) => seq![hex_bytes(encode_utf8(p@))],
                    None => Seq::<Seq<u8>>::empty(),
                }
                &&& c@.author == person
                &&& c@.committer == person
                &&& c@.message == encode_utf8(message@)
            },
    {
        let tree = match from_hex(tree_sha) {
            Ok(h) => h,
            Err(e) => {
                return Err(e);
            },
        };
        let mut parents: Vec<[u8; 20]> = Vec::new();
        match parent_sha {
            Some(p) => {
                match from_hex(p) {
                    Ok(h) => {
                        parents.push(h);
                        assert(hash_views(parents@) =~= seq![h@]);
                    },
                    Err(e) => {
                        return Err(e);
                    },
                }
            },
            None => {
                assert(hash_views(parents@) =~= Seq::<Seq<u8>>::empty());
            },
        }
        let author = person(name, email, timestamp, tz_offset);
        let committer = person(name, email, timestamp, tz_offset);
        let m = message.as_bytes();
        let text = copy_range(m, 0, m.len());
        assert(m@.subrange(0, m@.len() as int) =~= m@);
        Ok(Commit::from_parts(tree, parents, author, committer, text))
    }

    /// The commit's fingerprint as 40 hex digits.
    pub fn encoded_sha(&self) -> (s: String)
        ensures
            encode_utf8(s@) == hex_lower(self.sha1_hash@),
    {
        crate::hash::to_hex(&self.sha1_hash)
    }

    /// The commit's canonical bytes.
    pub fn write_data(&self) -> (data: &Vec<u8>)
        ensures
            data == self.write_data,
    {
        &self.write_data
    }
}

/// Whether `word` and a space stand in `bytes` at `pos`.
fn starts_with_word(bytes: &[u8], pos: usize, word: &[u8]) -> (r: bool)
    requires
        pos <= bytes@.len(),
    ensures
        r == starts_at(bytes@, pos as int, word@ + seq![32u8]),
{
    let n = bytes.len();
    let w = word.len();
    let ghost target = word@ + seq![32u8];
    if n - pos <= w {
        return false;
    }
    let mut i: usize = 0;
    while i < w
        invariant
            i <= w == word@.len(),
            pos + w < n == bytes@.len(),
            target == word@ + seq![32u8],
            forall|j: int| 0 <= j < i ==> bytes@[pos + j] == word@[j],
        decreases w - i,
    {
        if bytes[pos + i] != word[i] {
            proof {
                let sub = bytes@.subrange(pos as int, pos + target.len());
                assert(sub[i as int] == bytes@[pos + i]);
                assert(target[i as int] == word@[i as int]);
            }
            return false;
        }
        i = i + 1;
    }
    if bytes[pos + w] != 32 {
        proof {
            let sub = bytes@.subrange(pos as int, pos + target.len());
            assert(sub[w as int] == bytes@[pos + w]);
            assert(target[w as int] == 32u8);
        }
        return false;
    }
    proof {
        assert(bytes@.subrange(pos as int, pos + target.len()) =~= target);
    }
    true
}

/// Reads a line `<word> <40 hex digits>\n` at `pos`.
fn read_hash_line(bytes: &[u8], pos: usize, word: &[u8]) -> (r: Option<([u8; 20], usize)>)
    requires
        pos <= bytes@.len(),
    ensures
        match parse_hash_line(bytes@, pos as int, word@) {
            Some((hash, next)) => r matches Some((h, n)) && h@ == hash && n == next && pos < n
                <= bytes@.len(),
            None => r.is_none(),
        },
{
    let n = bytes.len();
    if !starts_with_word(bytes, pos, word) {
        return None;
    }
    let start = pos + word.len() + 1;
    if n - start <= 40 {
        return None;
    }
    if bytes[start + 40] != 10 {
        return None;
    }
    let text = copy_range(bytes, start, start + 40);
    match parse_hex(text.as_slice()) {
        Ok(h) => Some((h, start + 41)),
        Err(_e) => None,
    }
}

/// Reads the line of one person at `pos`.
fn read_person(bytes: &[u8], pos: usize, label: &[u8]) -> (r: Option<(User, usize)>)
    requires
        pos <= bytes@.len(),
    ensures
        match parse_person(bytes@, pos as int, label@) {
            Some((person, next)) => r matches Some((p, n)) && p@ == person && n == next && n
                <= bytes@.len(),
            None => r.is_none(),
        },
{
    let n = bytes.len();
    if !starts_with_word(bytes, pos, label) {
        return None;
    }
    let start = pos + label.len() + 1;
    let nl = find(bytes, 10, start);
    let lt = find(bytes, 60, start);
    if nl >= n || lt >= n || lt <= start {
        return None;
    }
    let gt = find(bytes, 62, lt + 1);
    if gt >= n || n - gt < 2 {
        return None;
    }
    let sp = find(bytes, 32, gt + 2);
    if sp >= nl || bytes[lt - 1] != 32 || bytes[gt + 1] != 32 {
        return None;
    }
    let person = User {
        name: copy_range(bytes, start, lt - 1),
        email: copy_range(bytes, lt + 1, gt),
        timestamp: copy_range(bytes, gt + 2, sp),
        tz_offset: copy_range(bytes, sp + 1, nl),
    };
    Some((person, nl + 1))
}

/// Reads a commit from its payload.
pub fn read_commit(payload: &[u8]) -> (r: Option<Commit>)
    ensures
        match parse_commit(payload@) {
            Some(v) => r matches Some(c) && c@ == v && c.wf(),
            None => r.is_none(),
        },
{
    let n = payload.len();
    let tree_word = ObjectKind::Tree.word_bytes();
    let (tree_sha, at1) = match read_hash_line(payload, 0, tree_word.as_slice()) {
        Some(found) => found,
        None => {
            return None;
        },
    };
    let parent = parent_word();
    let mut parents: Vec<[u8; 20]> = Vec::new();
    let mut p: usize = at1;
    proof {
        let (rest, end) = parse_parents(payload@, at1 as int);
        assert(hash_views(parents@) + rest =~= rest);
    }
    loop
        invariant
            p <= n == payload@.len(),
            parent@ == word_parent(),
            parse_parents(payload@, at1 as int) == ({
                let (rest, end) = parse_parents(payload@, p as int);
                (hash_views(parents@) + rest, end)
            }),
        ensures
            p <= n == payload@.len(),
            parse_parents(payload@, at1 as int) == (hash_views(parents@), p as int),
        decreases n - p,
    {
        match read_hash_line(payload, p, parent.as_slice()) {
            Some((h, next)) => {
                let ghost before = hash_views(parents@);
                parents.push(h);
                proof {
                    let (rest, end) = parse_parents(payload@, next as int);
                    assert(hash_views(parents@) =~= before.push(h@));
                    assert(before + (seq![h@] + rest) =~= before.push(h@) + rest);
                }
                p = next;
            },
            None => {
                proof {
                    assert(hash_views(parents@) + Seq::<Seq<u8>>::empty() =~= hash_views(
                        parents@,
                    ));
                }
                break ;
            },
        }
    }
    let author_label = author_word();
    let (author, at3) = match read_person(payload, p, author_label.as_slice()) {
        Some(found) => found,
        None => {
            return None;
        },
    };
    let committer_label = committer_word();
    let (committer, at4) = match read_person(payload, at3, committer_label.as_slice()) {
        Some(found) => found,
        None => {
            return None;
        },
    };
    if at4 >= n || payload[at4] != 10 {
        return None;
    }
    let message = copy_range(payload, at4 + 1, n);
    Some(Commit::from_parts(tree_sha, parents, author, committer, message))
}

/// A person whose line can be read back: no `<` or newline in the name, no
/// `>` or newline in the email, no space or newline in the time, no newline
/// in the offset.
pub open spec fn valid_person(p: PersonView) -> bool {
    &&& lacks(p.name, 60) && lacks(p.name, 10)
    &&& lacks(p.email, 62) && lacks(p.email, 10)
    &&& lacks(p.timestamp, 32) && lacks(p.timestamp, 10)
    &&& lacks(p.tz_offset, 10)
}

/// A commit whose payload can be read back: 20-byte fingerprints and valid
/// persons.
pub open spec fn valid_commit(c: CommitView) -> bool {
    &&& c.tree.len() == 20
    &&& forall|i: int| 0 <= i < c.parents.len() ==> (#[trigger] c.parents[i]).len() == 20
    &&& valid_person(c.author)
    &&& valid_person(c.committer)
}

/// A hash line written after a prefix is read back at the prefix's end.
pub proof fn lemma_hash_line_at(prefix: Seq<u8>, word: Seq<u8>, hash: Seq<u8>, rest: Seq<u8>)
    requires
        hash.len() == 20,
    ensures
        parse_hash_line(prefix + hash_line(word, hash) + rest, prefix.len() as int, word) == Some(
            (hash, (prefix.len() + hash_line(word, hash).len()) as int),
        ),
        hash_line(word, hash).len() == word.len() + 42,
{
    let s = prefix + hash_line(word, hash) + rest;
    let pos = prefix.len() as int;
    let start = pos + word.len() + 1;
    lemma_hex_roundtrip(hash);
    assert(s.subrange(pos, pos + word.len() + 1) =~= word + seq![32u8]);
    assert(s.subrange(start, start + 40) =~= hex_lower(hash));
    assert(s[start + 40] == 10);
}

/// Parent lines written after a prefix are read back, when what follows is
/// no parent line.
pub proof fn lemma_parents_at(prefix: Seq<u8>, parents: Seq<Seq<u8>>, rest: Seq<u8>)
    requires
        forall|i: int| 0 <= i < parents.len() ==> (#[trigger] parents[i]).len() == 20,
        rest.len() > 0,
        rest[0] != 112,
    ensures
        parse_parents(prefix + parent_lines(parents) + rest, prefix.len() as int) == (
            parents,
            (prefix.len() + parent_lines(parents).len()) as int,
        ),
    decreases parents.len(),
{
    let s = prefix + parent_lines(parents) + rest;
    let pos = prefix.len() as int;
    if parents.len() == 0 {
        let w = word_parent() + seq![32u8];
        assert(s[pos] == rest[0]);
        if starts_at(s, pos, w) {
            assert(s.subrange(pos, pos + w.len())[0] == w[0]);
        }
    } else {
        let line = hash_line(word_parent(), parents[0]);
        let tail = parents.skip(1);
        let after = parent_lines(tail) + rest;
        assert(s =~= prefix + line + after);
        lemma_hash_line_at(prefix, word_parent(), parents[0], after);
        let prefix2 = prefix + line;
        assert(s =~= prefix2 + parent_lines(tail) + rest);
        assert forall|i: int| 0 <= i < tail.len() implies (#[trigger] tail[i]).len() == 20 by {
            assert(tail[i] == parents[i + 1]);
        }
        lemma_parents_at(prefix2, tail, rest);
        assert(seq![parents[0]] + tail =~= parents);
    }
}

/// A run without `b`, then `b`: the first `b` from the run's start is at
/// its end.
pub proof fn lemma_find_mid(a: Seq<u8>, mid: Seq<u8>, b: u8, rest: Seq<u8>)
    requires
        lacks(mid, b),
    ensures
        find_byte(a + mid + seq![b] + rest, b, a.len() as int) == a.len() + mid.len(),
{
    let prefix = a + mid;
    assert forall|i: int| a.len() <= i < prefix.len() implies prefix[i] != b by {
        assert(prefix[i] == mid[i - a.len()]);
    }
    lemma_find_after_prefix(prefix, b, rest, a.len() as int);
}

/// Two runs without `b` joined hold no `b`.
pub proof fn lemma_lacks_join(x: Seq<u8>, y: Seq<u8>, b: u8)
    requires
        lacks(x, b),
        lacks(y, b),
    ensures
        lacks(x + y, b),
{
    assert forall|i: int| 0 <= i < (x + y).len() implies #[trigger] (x + y)[i] != b by {
        if i < x.len() {
            assert((x + y)[i] == x[i]);
        } else {
            assert((x + y)[i] == y[i - x.len()]);
        }
    }
}

/// The text of a person's line between the label and the newline.
pub open spec fn person_text(p: PersonView) -> Seq<u8> {
    p.name + seq![32u8, 60u8] + p.email + seq![62u8, 32u8] + p.timestamp + seq![32u8]
        + p.tz_offset
}

/// The first newline of a person's line is the one that ends it.
proof fn lemma_person_newline(prefix: Seq<u8>, label: Seq<u8>, p: PersonView, rest: Seq<u8>)
    requires
        valid_person(p),
    ensures
        find_byte(
            prefix + person_line(label, p) + rest,
            10,
            (prefix.len() + label.len() + 1) as int,
        ) == prefix.len() + label.len() + 1 + person_text(p).len(),
{
    let a = prefix + label + seq![32u8];
    let m1 = p.name + seq![32u8, 60u8];
    lemma_lacks_join(p.name, seq![32u8, 60u8], 10);
    let m2 = m1 + p.email;
    lemma_lacks_join(m1, p.email, 10);
    let m3 = m2 + seq![62u8, 32u8];
    lemma_lacks_join(m2, seq![62u8, 32u8], 10);
    let m4 = m3 + p.timestamp;
    lemma_lacks_join(m3, p.timestamp, 10);
    let m5 = m4 + seq![32u8];
    lemma_lacks_join(m4, seq![32u8], 10);
    let m6 = m5 + p.tz_offset;
    lemma_lacks_join(m5, p.tz_offset, 10);
    assert(m6 == person_text(p));
    lemma_find_mid(a, m6, 10, rest);
    assert(prefix + person_line(label, p) + rest =~= a + m6 + seq![10u8] + rest);
}

/// The first `<` of a person's line is the one before the email.
proof fn lemma_person_open(prefix: Seq<u8>, label: Seq<u8>, p: PersonView, rest: Seq<u8>)
    requires
        valid_person(p),
    ensures
        find_byte(
            prefix + person_line(label, p) + rest,
            60,
            (prefix.len() + label.len() + 1) as int,
        ) == prefix.len() + label.len() + 1 + p.name.len() + 1,
{
    let a = prefix + label + seq![32u8];
    let mid = p.name + seq![32u8];
    lemma_lacks_join(p.name, seq![32u8], 60);
    let r = p.email + seq![62u8, 32u8] + p.timestamp + seq![32u8] + p.tz_offset + seq![10u8]
        + rest;
    lemma_find_mid(a, mid, 60, r);
    assert(prefix + person_line(label, p) + rest =~= a + mid + seq![60u8] + r);
}

/// The first `>` after the `<` is the one after the email.
proof fn lemma_person_close(prefix: Seq<u8>, label: Seq<u8>, p: PersonView, rest: Seq<u8>)
    requires
        valid_person(p),
    ensures
        find_byte(
            prefix + person_line(label, p) + rest,
            62,
            (prefix.len() + label.len() + 1 + p.name.len() + 2) as int,
        ) == prefix.len() + label.len() + 1 + p.name.len() + 2 + p.email.len(),
{
    let a = prefix + label + seq![32u8] + p.name + seq![32u8, 60u8];
    let r = seq![32u8] + p.timestamp + seq![32u8] + p.tz_offset + seq![10u8] + rest;
    lemma_find_mid(a, p.email, 62, r);
    assert(prefix + person_line(label, p) + rest =~= a + p.email + seq![62u8] + r);
}

/// The first space after the email's `> ` is the one after the time.
proof fn lemma_person_space(prefix: Seq<u8>, label: Seq<u8>, p: PersonView, rest: Seq<u8>)
    requires
        valid_person(p),
    ensures
        find_byte(
            prefix + person_line(label, p) + rest,
            32,
            (prefix.len() + label.len() + 1 + p.name.len() + 2 + p.email.len() + 2) as int,
        ) == prefix.len() + label.len() + 1 + p.name.len() + 2 + p.email.len() + 2
            + p.timestamp.len(),
{
    let a = prefix + label + seq![32u8] + p.name + seq![32u8, 60u8] + p.email + seq![
        62u8,
        32u8,
    ];
    let r = p.tz_offset + seq![10u8] + rest;
    lemma_find_mid(a, p.timestamp, 32, r);
    assert(prefix + person_line(label, p) + rest =~= a + p.timestamp + seq![32u8] + r);
}

/// A person's line written after a prefix is read back at the prefix's end.
pub proof fn lemma_person_at(prefix: Seq<u8>, label: Seq<u8>, p: PersonView, rest: Seq<u8>)
    requires
        valid_person(p),
    ensures
        parse_person(prefix + person_line(label, p) + rest, prefix.len() as int, label) == Some(
            (p, (prefix.len() + person_line(label, p).len()) as int),
        ),
{
    let s = prefix + person_line(label, p) + rest;
    let pos = prefix.len() as int;
    let start = pos + label.len() + 1;
    lemma_person_newline(prefix, label, p, rest);
    lemma_person_open(prefix, label, p, rest);
    lemma_person_close(prefix, label, p, rest);
    lemma_person_space(prefix, label, p, rest);
    let lt = start + p.name.len() + 1;
    let gt = lt + 1 + p.email.len();
    let sp = gt + 2 + p.timestamp.len();
    let nl = sp + 1 + p.tz_offset.len();
    assert(find_byte(s, 60, start) == lt);
    assert(find_byte(s, 62, lt + 1) == gt);
    assert(find_byte(s, 32, gt + 2) == sp);
    assert(find_byte(s, 10, start) == nl);
    assert(s.subrange(pos, pos + label.len() + 1) =~= label + seq![32u8]);
    assert(s[lt - 1] == 32 && s[gt + 1] == 32);
    assert(s.subrange(start, lt - 1) =~= p.name);
    assert(s.subrange(lt + 1, gt) =~= p.email);
    assert(s.subrange(gt + 2, sp) =~= p.timestamp);
    assert(s.subrange(sp + 1, nl) =~= p.tz_offset);
}

/// The `tree` line of a commit's payload.
#[verifier::opaque]
pub closed spec fn tree_line(c: CommitView) -> Seq<u8> {
    hash_line(ObjectKind::Tree.word(), c.tree)
}

/// The `parent` lines of a commit's payload.
#[verifier::opaque]
pub closed spec fn parents_part(c: CommitView) -> Seq<u8> {
    parent_lines(c.parents)
}

/// The `author` line of a commit's payload.
#[verifier::opaque]
pub closed spec fn author_line(c: CommitView) -> Seq<u8> {
    person_line(word_author(), c.author)
}

/// The `committer` line of a commit's payload.
#[verifier::opaque]
pub closed spec fn committer_line(c: CommitView) -> Seq<u8> {
    person_line(word_committer(), c.committer)
}

/// A commit's payload is its lines, a blank line and the message.
proof fn lemma_payload_parts(c: CommitView)
    ensures
        commit_payload(c) == tree_line(c) + parents_part(c) + author_line(c) + committer_line(c)
            + seq![10u8] + c.message,
        author_line(c).len() > 0,
        author_line(c)[0] == 97,
{
    reveal(tree_line);
    reveal(parents_part);
    reveal(author_line);
    reveal(committer_line);
    assert(commit_payload(c) =~= tree_line(c) + parents_part(c) + author_line(c) + committer_line(
        c,
    ) + seq![10u8] + c.message);
    assert(author_line(c)[0] == word_author()[0]);
}

/// The `tree` line of a payload is read back at its start.
proof fn lemma_read_tree_line(c: CommitView)
    requires
        valid_commit(c),
    ensures
        parse_hash_line(commit_payload(c), 0, ObjectKind::Tree.word()) == Some(
            (c.tree, tree_line(c).len() as int),
        ),
{
    lemma_payload_parts(c);
    reveal(tree_line);
    let r1 = parents_part(c) + author_line(c) + committer_line(c) + seq![10u8] + c.message;
    let empty = Seq::<u8>::empty();
    assert(commit_payload(c) =~= empty + tree_line(c) + r1);
    lemma_hash_line_at(empty, ObjectKind::Tree.word(), c.tree, r1);
}

/// The `parent` lines of a payload are read back after the `tree` line.
proof fn lemma_read_parents(c: CommitView)
    requires
        valid_commit(c),
    ensures
        parse_parents(commit_payload(c), tree_line(c).len() as int) == (
            c.parents,
            (tree_line(c).len() + parents_part(c).len()) as int,
        ),
{
    lemma_payload_parts(c);
    reveal(parents_part);
    let r2 = author_line(c) + committer_line(c) + seq![10u8] + c.message;
    assert(r2[0] == author_line(c)[0]);
    assert(commit_payload(c) =~= tree_line(c) + parents_part(c) + r2);
    lemma_parents_at(tree_line(c), c.parents, r2);
}

/// The `author` line of a payload is read back after the parents.
proof fn lemma_read_author(c: CommitView)
    requires
        valid_commit(c),
    ensures
        parse_person(
            commit_payload(c),
            (tree_line(c).len() + parents_part(c).len()) as int,
            word_author(),
        ) == Some(
            (c.author, (tree_line(c).len() + parents_part(c).len() + author_line(c).len()) as int),
        ),
{
    lemma_payload_parts(c);
    reveal(author_line);
    let x = tree_line(c) + parents_part(c);
    let r = committer_line(c) + seq![10u8] + c.message;
    assert(commit_payload(c) =~= x + author_line(c) + r);
    lemma_person_at(x, word_author(), c.author, r);
}

/// The `committer` line of a payload is read back after the author.
proof fn lemma_read_committer(c: CommitView)
    requires
        valid_commit(c),
    ensures
        parse_person(
            commit_payload(c),
            (tree_line(c).len() + parents_part(c).len() + author_line(c).len()) as int,
            word_committer(),
        ) == Some(
            (
                c.committer,
                (tree_line(c).len() + parents_part(c).len() + author_line(c).len()
                    + committer_line(c).len()) as int,
            ),
        ),
{
    lemma_payload_parts(c);
    reveal(committer_line);
    let x = tree_line(c) + parents_part(c) + author_line(c);
    let r = seq![10u8] + c.message;
    assert(commit_payload(c) =~= x + committer_line(c) + r);
    lemma_person_at(x, word_committer(), c.committer, r);
}

/// The message of a payload follows the blank line after the committer.
proof fn lemma_read_message(c: CommitView)
    ensures
        ({
            let s = commit_payload(c);
            let at4 = (tree_line(c).len() + parents_part(c).len() + author_line(c).len()
                + committer_line(c).len()) as int;
            at4 < s.len() && s[at4] == 10 && s.subrange(at4 + 1, s.len() as int) == c.message
        }),
{
    lemma_payload_parts(c);
    let s = commit_payload(c);
    let at4 = (tree_line(c).len() + parents_part(c).len() + author_line(c).len() + committer_line(
        c,
    ).len()) as int;
    assert(s.subrange(at4 + 1, s.len() as int) =~= c.message);
}

/// Reading back the payload of a valid commit gives the commit.
pub proof fn lemma_commit_roundtrip(c: CommitView)
    requires
        valid_commit(c),
    ensures
        parse_commit(commit_payload(c)) == Some(c),
{
    lemma_read_tree_line(c);
    lemma_read_parents(c);
    lemma_read_author(c);
    lemma_read_committer(c);
    lemma_read_message(c);
}

} // verus!
