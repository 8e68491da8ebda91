//! Trees: named entries that point at blobs and other trees.

use vstd::prelude::*;
use vstd::utf8::*;
use crate::frame::{
    append, copy_range, frame, lacks, lemma_find_after_prefix, same, write_frame, DecodeError,
    ObjectKind,
};
use crate::hash::{digest, hex_lower, read_hash, sha1_digest, to_hex};
use crate::text::{bytes_le, find, find_byte, le};

verus! {

/// What an entry says: a mode word, a name and the child's fingerprint.
pub struct EntryView {
    pub mode: Seq<u8>,
    pub name: Seq<u8>,
    pub hash: Seq<u8>,
}

/// What a directory member is on disk.
#[derive(Debug, Clone, Copy, PartialEq, Eq, Structural)]
pub enum FileKind {
    File,
    Symlink,
    Directory,
}

/// The mode word of a directory member: `100755` for an executable file,
/// `100644` for any other file, `120000` for a symlink, `040000` for a
/// directory.
pub open spec fn mode_word(kind: FileKind, executable: bool) -> Seq<u8> {
    match kind {
        FileKind::File => if executable {
            seq![49u8, 48, 48, 55, 53, 53]
        } else {
            seq![49u8, 48, 48, 54, 52, 52]
        },
        FileKind::Symlink => seq![49u8, 50, 48, 48, 48, 48],
        FileKind::Directory => seq![48u8, 52, 48, 48, 48, 48],
    }
}

/// One of the four mode words.
pub open spec fn is_mode(mode: Seq<u8>) -> bool {
    exists|kind: FileKind, executable: bool| mode == #[trigger] mode_word(kind, executable)
}

/// An entry that a tree may hold: a known mode, a name that is a single
/// path segment, a 20-byte fingerprint.
pub open spec fn valid_entry(e: EntryView) -> bool {
    &&& is_mode(e.mode)
    &&& e.name.len() > 0
    &&& forall|i: int| 0 <= i < e.name.len() ==> #[trigger] e.name[i] != 0 && e.name[i] != 47
    &&& e.hash.len() == 20
}

/// The record of one entry: `mode SP name NUL hash`.
pub open spec fn entry_bytes(e: EntryView) -> Seq<u8> {
    e.mode + seq![32u8] + e.name + seq![0u8] + e.hash
}

/// The records of a run of entries, one after the other.
pub open spec fn entries_bytes(es: Seq<EntryView>) -> Seq<u8>
    decreases es.len(),
{
    if es.len() == 0 {
        Seq::empty()
    } else {
        entry_bytes(es[0]) + entries_bytes(es.skip(1))
    }
}

/// The entries recorded in `payload` from index `from` on, or `None` when
/// the payload ends inside a record.
pub open spec fn parse_entries(payload: Seq<u8>, from: int) -> Option<Seq<EntryView>>
    decreases payload.len() - from,
{
    if from >= payload.len() {
        Some(Seq::empty())
    } else {
        let sp = find_byte(payload, 32, from);
        let nul = find_byte(payload, 0, sp + 1);
        if from <= sp && sp < nul && nul + 20 < payload.len() {
            let e = EntryView {
                mode: payload.subrange(from, sp),
                name: payload.subrange(sp + 1, nul),
                hash: payload.subrange(nul + 1, nul + 21),
            };
            match parse_entries(payload, nul + 21) {
                Some(rest) => Some(seq![e] + rest),
                None => None,
            }
        } else {
            None
        }
    }
}

/// Where `e` goes in a run sorted by name: before the first entry whose
/// name is not smaller.
pub open spec fn insert_at(s: Seq<EntryView>, e: EntryView) -> int
    decreases s.len(),
{
    if s.len() == 0 || bytes_le(e.name, s[0].name) {
        0
    } else {
        1 + insert_at(s.skip(1), e)
    }
}

/// The entries in byte-wise order of their names.
pub open spec fn sorted_entries(s: Seq<EntryView>) -> Seq<EntryView>
    decreases s.len(),
{
    if s.len() == 0 {
        s
    } else {
        let rest = sorted_entries(s.skip(1));
        rest.insert(insert_at(rest, s[0]), s[0])
    }
}

/// Names never decrease along the run.
pub open spec fn is_sorted(s: Seq<EntryView>) -> bool {
    forall|i: int, j: int| 0 <= i < j < s.len() ==> bytes_le(#[trigger] s[i].name, #[trigger] s[j].name)
}

/// One entry of a tree.
#[derive(Debug, Clone)]
pub struct TreeEntry {
    pub mode: Vec<u8>,
    pub name: Vec<u8>,
    pub sha1_hash: [u8; 20],
}

impl View for TreeEntry {
    type V = EntryView;

    open spec fn view(&self) -> EntryView {
        EntryView { mode: self.mode@, name: self.name@, hash: self.sha1_hash@ }
    }
}

/// The views of a run of entries.
pub open spec fn entry_views(s: Seq<TreeEntry>) -> Seq<EntryView> {
    s.map_values(|e: TreeEntry| e@)
}

/// The mode word of a directory member.
pub fn entry_mode(kind: FileKind, executable: bool) -> (m: Vec<u8>)
    ensures
        m@ == mode_word(kind, executable),
        is_mode(m@),
{
    let mut m: Vec<u8> = Vec::new();
    match kind {
        FileKind::File => {
            m.push(49);
            m.push(48);
            m.push(48);
            if executable {
                m.push(55);
                m.push(53);
                m.push(53);
            } else {
                m.push(54);
                m.push(52);
                m.push(52);
            }
        },
        FileKind::Symlink => {
            m.push(49);
            m.push(50);
            m.push(48);
            m.push(48);
            m.push(48);
            m.push(48);
        },
        FileKind::Directory => {
            m.push(48);
            m.push(52);
            m.push(48);
            m.push(48);
            m.push(48);
            m.push(48);
        },
    }
    assert(m@ =~= mode_word(kind, executable));
    m
}

impl TreeEntry {
    /// An entry with the given mode word, name and child fingerprint.
    pub fn new(mode: String, name: String, sha1_hash: [u8; 20]) -> (e: TreeEntry)
        ensures
            e@.mode == encode_utf8(mode@),
            e@.name == encode_utf8(name@),
            e@.hash == sha1_hash@,
    {
        let m = mode.as_str().as_bytes();
        let n = name.as_str().as_bytes();
        TreeEntry {
            mode: copy_range(m, 0, m.len()),
            name: copy_range(n, 0, n.len()),
            sha1_hash,
        }
    }

    /// The entry's record.
    pub fn data(&self) -> (data: Vec<u8>)
        ensures
            data@ == entry_bytes(self@),
    {
        let mut data: Vec<u8> = Vec::new();
        append(&mut data, self.mode.as_slice());
        data.push(32);
        append(&mut data, self.name.as_slice());
        data.push(0);
        append(&mut data, self.sha1_hash.as_slice());
        assert(data@ =~= entry_bytes(self@));
        data
    }
}

/// Where `insert_at` puts an entry, everything before is smaller and the
/// next entry, if any, is not.
pub proof fn lemma_insert_at(s: Seq<EntryView>, e: EntryView)
    ensures
        0 <= insert_at(s, e) <= s.len(),
        forall|i: int| 0 <= i < insert_at(s, e) ==> !bytes_le(e.name, #[trigger] s[i].name),
        insert_at(s, e) < s.len() ==> bytes_le(e.name, s[insert_at(s, e)].name),
    decreases s.len(),
{
    if s.len() > 0 && !bytes_le(e.name, s[0].name) {
        lemma_insert_at(s.skip(1), e);
        let p = insert_at(s.skip(1), e);
        assert forall|i: int| 0 <= i < p + 1 implies !bytes_le(e.name, #[trigger] s[i].name) by {
            if i > 0 {
                assert(s[i] == s.skip(1)[i - 1]);
            }
        }
        if p + 1 < s.len() {
            assert(s[p + 1] == s.skip(1)[p]);
        }
    }
}

/// Putting an entry at its place keeps a sorted run sorted.
pub proof fn lemma_insert_sorted(s: Seq<EntryView>, e: EntryView)
    requires
        is_sorted(s),
    ensures
        is_sorted(s.insert(insert_at(s, e), e)),
        s.insert(insert_at(s, e), e).len() == s.len() + 1,
{
    lemma_insert_at(s, e);
    let p = insert_at(s, e);
    let t = s.insert(p, e);
    s.insert_ensures(p, e);
    assert forall|i: int, j: int| 0 <= i < j < t.len() implies bytes_le(
        #[trigger] t[i].name,
        #[trigger] t[j].name,
    ) by {
        if j < p {
            assert(t[i] == s[i] && t[j] == s[j]);
        } else if j == p {
            assert(t[i] == s[i]);
            crate::text::lemma_le_total(e.name, s[i].name);
        } else if i < p {
            assert(t[i] == s[i] && t[j] == s[j - 1]);
            if i == j - 1 {
                crate::text::lemma_le_refl(s[i].name);
            }
        } else if i == p {
            assert(t[j] == s[j - 1]);
            if j - 1 > p {
                crate::text::lemma_le_trans(e.name, s[p].name, s[j - 1].name);
            }
        } else {
            assert(t[i] == s[i - 1] && t[j] == s[j - 1]);
        }
    }
}

/// Sorting gives a sorted run of the same length.
pub proof fn lemma_sorted_entries(s: Seq<EntryView>)
    ensures
        is_sorted(sorted_entries(s)),
        sorted_entries(s).len() == s.len(),
    decreases s.len(),
{
    if s.len() > 0 {
        lemma_sorted_entries(s.skip(1));
        lemma_insert_sorted(sorted_entries(s.skip(1)), s[0]);
    }
}

/// The entries in byte-wise order of their names.
pub fn sort_entries(entries: Vec<TreeEntry>) -> (sorted: Vec<TreeEntry>)
    ensures
        entry_views(sorted@) == sorted_entries(entry_views(entries@)),
{
    let ghost all = entry_views(entries@);
    let mut input = entries;
    let mut out: Vec<TreeEntry> = Vec::new();
    proof {
        assert(all.skip(all.len() as int) =~= Seq::<EntryView>::empty());
        assert(entry_views(out@) =~= Seq::<EntryView>::empty());
    }
    while input.len() > 0
        invariant
            input@.len() <= all.len(),
            entry_views(input@) == all.subrange(0, input@.len() as int),
            entry_views(out@) == sorted_entries(all.skip(input@.len() as int)),
        decreases input@.len(),
    {
        let ghost k = input@.len() as int;
        let ghost before = entry_views(out@);
        let ghost prev = input@;
        let e = input.pop().unwrap();
        proof {
            assert(e@ == entry_views(prev)[k - 1]);
            assert(e@ == all[k - 1]);
        }
        let mut j: usize = 0;
        proof {
            assert(before.skip(0) =~= before);
        }
        while j < out.len() && !le(e.name.as_slice(), out[j].name.as_slice())
            invariant
                j <= out@.len(),
                before == entry_views(out@),
                insert_at(before, e@) == j + insert_at(before.skip(j as int), e@),
            decreases out@.len() - j,
        {
            proof {
                assert(before.skip(j as int)[0] == out@[j as int]@);
                assert(before.skip(j as int).skip(1) =~= before.skip(j + 1));
            }
            j = j + 1;
        }
        proof {
            if j < out@.len() {
                assert(before.skip(j as int)[0] == out@[j as int]@);
            }
            lemma_insert_at(before, e@);
        }
        out.insert(j, e);
        proof {
            let tail = all.skip(k - 1);
            assert(tail[0] == e@);
            assert(tail.skip(1) =~= all.skip(k));
            assert(entry_views(out@) =~= before.insert(j as int, e@));
            assert(entry_views(input@) =~= all.subrange(0, k - 1));
        }
    }
    proof {
        assert(all.skip(0) =~= all);
    }
    out
}

/// A copy of the entries.
pub fn copy_entries(entries: &Vec<TreeEntry>) -> (copy: Vec<TreeEntry>)
    ensures
        entry_views(copy@) == entry_views(entries@),
{
    let mut copy: Vec<TreeEntry> = Vec::new();
    let mut i: usize = 0;
    while i < entries.len()
        invariant
            i <= entries@.len(),
            entry_views(copy@) == entry_views(entries@).subrange(0, i as int),
        decreases entries@.len() - i,
    {
        let e = &entries[i];
        let m = e.mode.as_slice();
        let n = e.name.as_slice();
        proof {
            assert(m@.subrange(0, m@.len() as int) =~= m@);
            assert(n@.subrange(0, n@.len() as int) =~= n@);
        }
        let ghost before = entry_views(copy@);
        let c = TreeEntry {
            mode: copy_range(m, 0, m.len()),
            name: copy_range(n, 0, n.len()),
            sha1_hash: e.sha1_hash,
        };
        copy.push(c);
        i = i + 1;
        proof {
            assert(c@ == e@);
            assert(entry_views(copy@) =~= before.push(e@));
            assert(entry_views(entries@).subrange(0, i as int) =~= before.push(e@));
        }
    }
    proof {
        assert(entry_views(entries@).subrange(0, i as int) =~= entry_views(entries@));
    }
    copy
}

/// The payload of the tree of the given entries: their records, in order
/// of name.
pub fn tree_payload(entries: &Vec<TreeEntry>) -> (payload: Vec<u8>)
    ensures
        payload@ == entries_bytes(sorted_entries(entry_views(entries@))),
{
    let sorted = sort_entries(copy_entries(entries));
    encode_entries(&sorted)
}

/// The records of the entries, in the order given.
pub fn encode_entries(entries: &Vec<TreeEntry>) -> (out: Vec<u8>)
    ensures
        out@ == entries_bytes(entry_views(entries@)),
{
    let ghost all = entry_views(entries@);
    let mut out: Vec<u8> = Vec::new();
    let mut i: usize = 0;
    proof {
        assert(all.skip(0) =~= all);
    }
    while i < entries.len()
        invariant
            i <= entries@.len(),
            all == entry_views(entries@),
            entries_bytes(all) == out@ + entries_bytes(all.skip(i as int)),
        decreases entries@.len() - i,
    {
        let record = entries[i].data();
        proof {
            assert(all.skip(i as int)[0] == entries@[i as int]@);
            assert(all.skip(i as int).skip(1) =~= all.skip(i + 1));
        }
        let ghost before = out@;
        append(&mut out, record.as_slice());
        i = i + 1;
        proof {
            assert(entries_bytes(all) =~= out@ + entries_bytes(all.skip(i as int)));
        }
    }
    proof {
        assert(entries_bytes(all.skip(i as int)) =~= Seq::<u8>::empty());
        assert(out@ + Seq::<u8>::empty() =~= out@);
    }
    out
}

/// Reads the entries of a tree's payload, in the order recorded.
pub fn parse_tree(payload: &[u8]) -> (r: Result<Vec<TreeEntry>, DecodeError>)
    ensures
        match parse_entries(payload@, 0) {
            Some(es) => r matches Ok(entries) && entry_views(entries@) == es,
            None => r == Err::<Vec<TreeEntry>, DecodeError>(DecodeError::TruncatedTree),
        },
{
    let n = payload.len();
    let mut entries: Vec<TreeEntry> = Vec::new();
    let mut p: usize = 0;
    proof {
        assert(entry_views(entries@) =~= Seq::<EntryView>::empty());
        match parse_entries(payload@, 0) {
            Some(rest) => {
                assert(entry_views(entries@) + rest =~= rest);
            },
            None => {},
        }
    }
    while p < n
        invariant
            p <= n == payload@.len(),
            parse_entries(payload@, 0) == match parse_entries(payload@, p as int) {
                Some(rest) => Some(entry_views(entries@) + rest),
                None => None,
            },
        decreases n - p,
    {
        let sp = find(payload, 32, p);
        if sp >= n {
            return Err(DecodeError::TruncatedTree);
        }
        let nul = find(payload, 0, sp + 1);
        if nul >= n || n - nul <= 20 {
            return Err(DecodeError::TruncatedTree);
        }
        let e = TreeEntry {
            mode: copy_range(payload, p, sp),
            name: copy_range(payload, sp + 1, nul),
            sha1_hash: read_hash(payload, nul + 1),
        };
        let ghost before = entry_views(entries@);
        entries.push(e);
        proof {
            assert(entry_views(entries@) =~= before.push(e@));
            match parse_entries(payload@, nul + 21) {
                Some(rest) => {
                    assert(before + (seq![e@] + rest) =~= before.push(e@) + rest);
                },
                None => {},
            }
        }
        p = nul + 21;
    }
    proof {
        assert(entry_views(entries@) + Seq::<EntryView>::empty() =~= entry_views(entries@));
    }
    Ok(entries)
}

/// A directory listing under its fingerprint.
#[derive(Debug, Clone)]
pub struct Tree {
    pub entries: Vec<TreeEntry>,
    pub sha1_hash: [u8; 20],
    pub write_data: Vec<u8>,
}

impl View for Tree {
    type V = Seq<EntryView>;

    open spec fn view(&self) -> Seq<EntryView> {
        entry_views(self.entries@)
    }
}

/// The canonical bytes of a tree: its entries in order of name, framed.
pub open spec fn tree_bytes(entries: Seq<EntryView>) -> Seq<u8> {
    frame(ObjectKind::Tree.word(), entries_bytes(sorted_entries(entries)))
}

impl Tree {
    /// The entries are in order of name, and the stored bytes and the
    /// fingerprint are those of the entries.
    pub open spec fn wf(&self) -> bool {
        &&& is_sorted(self@)
        &&& self.write_data@ == frame(ObjectKind::Tree.word(), entries_bytes(self@))
        &&& self.sha1_hash@ == sha1_digest(self.write_data@)
    }

    /// The tree of the given entries, whatever their order.
    pub fn new(entries: Vec<TreeEntry>) -> (tree: Tree)
        ensures
            tree.wf(),
            tree@ == sorted_entries(entry_views(entries@)),
            tree.write_data@ == tree_bytes(entry_views(entries@)),
    {
        proof {
            lemma_sorted_entries(entry_views(entries@));
        }
        let entries = sort_entries(entries);
        let payload = encode_entries(&entries);
        let write_data = write_frame(ObjectKind::Tree, payload.as_slice());
        let sha1_hash = digest(write_data.as_slice());
        Tree { entries, sha1_hash, write_data }
    }

    /// The tree's fingerprint.
    pub fn sha1_hash(&self) -> (h: [u8; 20])
        ensures
            h == self.sha1_hash,
    {
        self.sha1_hash
    }

    /// The tree's fingerprint as 40 hex digits.
    pub fn encoded_sha(&self) -> (s: String)
        ensures
            encode_utf8(s@) == hex_lower(self.sha1_hash@),
    {
        to_hex(&self.sha1_hash)
    }

    /// The tree's canonical bytes.
    pub fn write_data(&self) -> (data: &Vec<u8>)
        ensures
            data == self.write_data,
    {
        &self.write_data
    }
}

/// A mode word holds no space.
pub proof fn lemma_mode_lacks_space(mode: Seq<u8>)
    requires
        is_mode(mode),
    ensures
        mode.len() == 6,
        lacks(mode, 32),
{
    let (kind, executable) = choose|kind: FileKind, executable: bool|
        mode == #[trigger] mode_word(kind, executable);
    assert(mode == mode_word(kind, executable));
}

/// Reading back the records of valid entries, written after any prefix,
/// gives the entries.
pub proof fn lemma_parse_entries_after(prefix: Seq<u8>, es: Seq<EntryView>)
    requires
        forall|i: int| 0 <= i < es.len() ==> valid_entry(#[trigger] es[i]),
    ensures
        parse_entries(prefix + entries_bytes(es), prefix.len() as int) == Some(es),
    decreases es.len(),
{
    let payload = prefix + entries_bytes(es);
    let from = prefix.len() as int;
    if es.len() == 0 {
        assert(payload =~= prefix);
    } else {
        let e = es[0];
        let rest = entries_bytes(es.skip(1));
        assert(valid_entry(e));
        lemma_mode_lacks_space(e.mode);
        let head = prefix + e.mode;
        let after_sp = e.name + seq![0u8] + e.hash + rest;
        assert(payload =~= head + seq![32u8] + after_sp);
        assert forall|i: int| from <= i < head.len() implies head[i] != 32u8 by {
            assert(head[i] == e.mode[i - from]);
        }
        lemma_find_after_prefix(head, 32, after_sp, from);
        let sp = head.len() as int;
        let head2 = head + seq![32u8] + e.name;
        assert(payload =~= head2 + seq![0u8] + (e.hash + rest));
        assert forall|i: int| sp + 1 <= i < head2.len() implies head2[i] != 0u8 by {
            assert(head2[i] == e.name[i - sp - 1]);
        }
        lemma_find_after_prefix(head2, 0, e.hash + rest, sp + 1);
        let nul = head2.len() as int;
        assert(payload.subrange(from, sp) =~= e.mode);
        assert(payload.subrange(sp + 1, nul) =~= e.name);
        assert(payload.subrange(nul + 1, nul + 21) =~= e.hash);
        let prefix2 = prefix + entry_bytes(e);
        assert(payload =~= prefix2 + rest);
        assert(prefix2.len() == nul + 21);
        assert forall|i: int| 0 <= i < es.skip(1).len() implies valid_entry(
            #[trigger] es.skip(1)[i],
        ) by {
            assert(es.skip(1)[i] == es[i + 1]);
        }
        lemma_parse_entries_after(prefix2, es.skip(1));
        assert(seq![e] + es.skip(1) =~= es);
    }
}

/// Reading back the records of valid entries gives the entries.
pub proof fn lemma_parse_entries_roundtrip(es: Seq<EntryView>)
    requires
        forall|i: int| 0 <= i < es.len() ==> valid_entry(#[trigger] es[i]),
    ensures
        parse_entries(entries_bytes(es), 0) == Some(es),
{
    lemma_parse_entries_after(Seq::empty(), es);
    assert(Seq::<u8>::empty() + entries_bytes(es) =~= entries_bytes(es));
}

/// Sorting a sorted run changes nothing.
pub proof fn lemma_sorted_is_fixed(s: Seq<EntryView>)
    requires
        is_sorted(s),
    ensures
        sorted_entries(s) == s,
    decreases s.len(),
{
    if s.len() > 0 {
        let rest = s.skip(1);
        assert forall|i: int, j: int| 0 <= i < j < rest.len() implies bytes_le(
            #[trigger] rest[i].name,
            #[trigger] rest[j].name,
        ) by {
            assert(rest[i] == s[i + 1] && rest[j] == s[j + 1]);
        }
        lemma_sorted_is_fixed(rest);
        if rest.len() > 0 {
            assert(rest[0] == s[1]);
            assert(bytes_le(s[0].name, s[1].name));
        }
        assert(insert_at(rest, s[0]) == 0);
        assert(rest.insert(0, s[0]) =~= s);
    }
}

/// No two entries share a name.
pub open spec fn distinct_names(s: Seq<EntryView>) -> bool {
    forall|i: int, j: int| 0 <= i < j < s.len() ==> (#[trigger] s[i]).name != (#[trigger] s[j]).name
}

/// Sorting keeps the entries: each as often as before.
pub proof fn lemma_sorted_permutes(s: Seq<EntryView>)
    ensures
        sorted_entries(s).to_multiset() == s.to_multiset(),
    decreases s.len(),
{
    if s.len() > 0 {
        let rest = sorted_entries(s.skip(1));
        lemma_sorted_permutes(s.skip(1));
        lemma_insert_at(rest, s[0]);
        vstd::seq_lib::to_multiset_insert(rest, insert_at(rest, s[0]), s[0]);
        assert(s =~= s.skip(1).insert(0, s[0]));
        vstd::seq_lib::to_multiset_insert(s.skip(1), 0, s[0]);
    }
}

/// Every entry of the sorted run is an entry of the run.
pub proof fn lemma_sorted_members(s: Seq<EntryView>)
    ensures
        forall|i: int|
            0 <= i < sorted_entries(s).len() ==> s.contains(#[trigger] sorted_entries(s)[i]),
    decreases s.len(),
{
    if s.len() > 0 {
        let rest = sorted_entries(s.skip(1));
        let p = insert_at(rest, s[0]);
        lemma_sorted_members(s.skip(1));
        lemma_insert_at(rest, s[0]);
        rest.insert_ensures(p, s[0]);
        let t = sorted_entries(s);
        assert forall|i: int| 0 <= i < t.len() implies s.contains(#[trigger] t[i]) by {
            if i == p {
                assert(s[0] == t[i]);
            } else {
                let k = if i < p {
                    i
                } else {
                    i - 1
                };
                assert(t[i] == rest[k]);
                assert(s.skip(1).contains(rest[k]));
                let j = choose|j: int| 0 <= j < s.skip(1).len() && s.skip(1)[j] == rest[k];
                assert(s[j + 1] == rest[k]);
            }
        }
    }
}

/// Sorting keeps names distinct.
pub proof fn lemma_sorted_distinct(s: Seq<EntryView>)
    requires
        distinct_names(s),
    ensures
        distinct_names(sorted_entries(s)),
    decreases s.len(),
{
    if s.len() > 0 {
        let tail = s.skip(1);
        let rest = sorted_entries(tail);
        let p = insert_at(rest, s[0]);
        assert forall|i: int, j: int| 0 <= i < j < tail.len() implies (#[trigger] tail[i]).name != (
        #[trigger] tail[j]).name by {
            assert(tail[i] == s[i + 1] && tail[j] == s[j + 1]);
        }
        lemma_sorted_distinct(tail);
        lemma_sorted_members(tail);
        lemma_insert_at(rest, s[0]);
        rest.insert_ensures(p, s[0]);
        let t = sorted_entries(s);
        assert forall|k: int| 0 <= k < rest.len() implies (#[trigger] rest[k]).name != s[0].name by {
            assert(tail.contains(rest[k]));
            let j = choose|j: int| 0 <= j < tail.len() && tail[j] == rest[k];
            assert(s[j + 1] == rest[k]);
        }
        assert forall|i: int, j: int| 0 <= i < j < t.len() implies (#[trigger] t[i]).name != (
        #[trigger] t[j]).name by {
            let ki = if i < p {
                i
            } else {
                i - 1
            };
            let kj = if j < p {
                j
            } else {
                j - 1
            };
            if i == p {
                assert(t[j] == rest[kj]);
            } else if j == p {
                assert(t[i] == rest[ki]);
            } else {
                assert(t[i] == rest[ki] && t[j] == rest[kj]);
            }
        }
    }
}

/// Two sorted runs of the same entries, with distinct names, are the same
/// run.
pub proof fn lemma_sorted_unique(x: Seq<EntryView>, y: Seq<EntryView>)
    requires
        is_sorted(x),
        is_sorted(y),
        distinct_names(x),
        x.to_multiset() == y.to_multiset(),
    ensures
        x == y,
    decreases x.len(),
{
    vstd::seq_lib::to_multiset_len(x);
    vstd::seq_lib::to_multiset_len(y);
    if x.len() == 0 {
        assert(x =~= y);
    } else {
        let n = x.len() as int;
        x.to_multiset_ensures();
        y.to_multiset_ensures();
        assert(x.contains(x[n - 1]));
        assert(y.contains(y[n - 1]));
        assert(x.to_multiset().count(x[n - 1]) > 0);
        assert(y.to_multiset().count(x[n - 1]) > 0);
        assert(y.contains(x[n - 1]));
        assert(y.to_multiset().count(y[n - 1]) > 0);
        assert(x.to_multiset().count(y[n - 1]) > 0);
        assert(x.contains(y[n - 1]));
        let i = choose|i: int| 0 <= i < x.len() && x[i] == y[n - 1];
        let j = choose|j: int| 0 <= j < y.len() && y[j] == x[n - 1];
        crate::text::lemma_le_refl(x[n - 1].name);
        crate::text::lemma_le_refl(y[n - 1].name);
        assert(bytes_le(x[i].name, x[n - 1].name));
        assert(bytes_le(y[j].name, y[n - 1].name));
        crate::text::lemma_le_antisym(x[n - 1].name, y[n - 1].name);
        assert(i == n - 1);
        let e = x[n - 1];
        let xs = x.drop_last();
        let ys = y.drop_last();
        assert(x =~= xs.push(e));
        assert(y =~= ys.push(e));
        vstd::seq_lib::to_multiset_build(xs, e);
        vstd::seq_lib::to_multiset_build(ys, e);
        assert(xs.to_multiset() =~= x.to_multiset().remove(e));
        assert(ys.to_multiset() =~= y.to_multiset().remove(e));
        assert forall|a: int, b: int| 0 <= a < b < xs.len() implies bytes_le(
            #[trigger] xs[a].name,
            #[trigger] xs[b].name,
        ) by {
            assert(xs[a] == x[a] && xs[b] == x[b]);
        }
        assert forall|a: int, b: int| 0 <= a < b < ys.len() implies bytes_le(
            #[trigger] ys[a].name,
            #[trigger] ys[b].name,
        ) by {
            assert(ys[a] == y[a] && ys[b] == y[b]);
        }
        assert forall|a: int, b: int| 0 <= a < b < xs.len() implies (#[trigger] xs[a]).name != (
        #[trigger] xs[b]).name by {
            assert(xs[a] == x[a] && xs[b] == x[b]);
        }
        lemma_sorted_unique(xs, ys);
    }
}

/// The canonical bytes of a tree do not depend on the order its entries
/// came in: two runs of the same entries, with distinct names, give the
/// same bytes.
pub proof fn lemma_tree_bytes_ignore_order(a: Seq<EntryView>, b: Seq<EntryView>)
    requires
        distinct_names(a),
        a.to_multiset() == b.to_multiset(),
    ensures
        sorted_entries(a) == sorted_entries(b),
        tree_bytes(a) == tree_bytes(b),
{
    lemma_sorted_entries(a);
    lemma_sorted_entries(b);
    lemma_sorted_permutes(a);
    lemma_sorted_permutes(b);
    lemma_sorted_distinct(a);
    lemma_sorted_unique(sorted_entries(a), sorted_entries(b));
}

/// Each entry's name comes strictly before the next one's.
pub open spec fn strictly_sorted(s: Seq<EntryView>) -> bool {
    forall|i: int|
        0 <= i < s.len() - 1 ==> bytes_le(#[trigger] s[i].name, s[i + 1].name) && s[i].name != s[i
            + 1].name
}

/// From one entry to a later one the names do not decrease, when each
/// comes before the next.
proof fn lemma_steps_reach(s: Seq<EntryView>, i: int, j: int)
    requires
        strictly_sorted(s),
        0 <= i < j < s.len(),
    ensures
        bytes_le(s[i].name, s[j].name),
        bytes_le(s[i + 1].name, s[j].name),
    decreases j - i,
{
    assert(bytes_le(s[i].name, s[i + 1].name));
    if i + 1 < j {
        lemma_steps_reach(s, i + 1, j);
        crate::text::lemma_le_trans(s[i].name, s[i + 1].name, s[j].name);
    } else {
        crate::text::lemma_le_refl(s[j].name);
    }
}

/// A run is sorted with distinct names exactly when each name comes
/// strictly before the next.
pub proof fn lemma_strictly_sorted(s: Seq<EntryView>)
    ensures
        strictly_sorted(s) <==> is_sorted(s) && distinct_names(s),
{
    if strictly_sorted(s) {
        assert forall|i: int, j: int| 0 <= i < j < s.len() implies bytes_le(
            #[trigger] s[i].name,
            #[trigger] s[j].name,
        ) by {
            lemma_steps_reach(s, i, j);
        }
        assert forall|i: int, j: int| 0 <= i < j < s.len() implies (#[trigger] s[i]).name != (
        #[trigger] s[j]).name by {
            lemma_steps_reach(s, i, j);
            if s[i].name == s[j].name {
                crate::text::lemma_le_antisym(s[i].name, s[i + 1].name);
            }
        }
    }
    if is_sorted(s) && distinct_names(s) {
        assert forall|i: int| 0 <= i < s.len() - 1 implies bytes_le(
            #[trigger] s[i].name,
            s[i + 1].name,
        ) && s[i].name != s[i + 1].name by {
            assert(bytes_le(s[i].name, s[i + 1].name));
            assert(s[i].name != s[i + 1].name);
        }
    }
}

/// Whether `mode` is one of the four mode words.
pub fn is_mode_word(mode: &[u8]) -> (r: bool)
    ensures
        r == is_mode(mode@),
{
    let file = entry_mode(FileKind::File, false);
    let executable = entry_mode(FileKind::File, true);
    let symlink = entry_mode(FileKind::Symlink, false);
    let directory = entry_mode(FileKind::Directory, false);
    let r = same(mode, file.as_slice()) || same(mode, executable.as_slice()) || same(
        mode,
        symlink.as_slice(),
    ) || same(mode, directory.as_slice());
    proof {
        if !r {
            assert forall|kind: FileKind, exec: bool| mode@ != #[trigger] mode_word(
                kind,
                exec,
            ) by {
                assert(mode_word(FileKind::Symlink, exec) == mode_word(FileKind::Symlink, false));
                assert(mode_word(FileKind::Directory, exec) == mode_word(
                    FileKind::Directory,
                    false,
                ));
            }
        }
    }
    r
}

impl TreeEntry {
    /// Whether the entry may stand in a tree: a known mode, and a name
    /// that is one path segment.
    pub fn is_valid(&self) -> (r: bool)
        ensures
            r == valid_entry(self@),
    {
        if !is_mode_word(self.mode.as_slice()) || self.name.len() == 0 {
            return false;
        }
        let mut i: usize = 0;
        while i < self.name.len()
            invariant
                i <= self.name@.len(),
                forall|j: int| 0 <= j < i ==> #[trigger] self.name@[j] != 0 && self.name@[j] != 47,
            decreases self.name@.len() - i,
        {
            if self.name[i] == 0 || self.name[i] == 47 {
                return false;
            }
            i = i + 1;
        }
        true
    }
}

impl Tree {
    /// Whether the tree is in canonical form: every entry valid, names in
    /// order, no name twice.
    pub fn is_canonical(&self) -> (r: bool)
        ensures
            r == (is_sorted(self@) && distinct_names(self@) && forall|i: int|
                0 <= i < self@.len() ==> valid_entry(#[trigger] self@[i])),
    {
        let ghost views = self@;
        proof {
            lemma_strictly_sorted(views);
        }
        let n = self.entries.len();
        let mut i: usize = 0;
        while i < n
            invariant
                i <= n == self.entries@.len(),
                views == entry_views(self.entries@),
                forall|j: int| 0 <= j < i ==> valid_entry(#[trigger] views[j]),
                forall|j: int|
                    0 <= j < i && j < n - 1 ==> bytes_le(#[trigger] views[j].name, views[j + 1].name)
                        && views[j].name != views[j + 1].name,
            decreases n - i,
        {
            proof {
                assert(views[i as int] == self.entries@[i as int]@);
            }
            if !self.entries[i].is_valid() {
                return false;
            }
            if i + 1 < n {
                proof {
                    assert(views[i + 1] == self.entries@[i + 1]@);
                }
                let a = self.entries[i].name.as_slice();
                let b = self.entries[i + 1].name.as_slice();
                if !le(a, b) || same(a, b) {
                    return false;
                }
            }
            i = i + 1;
        }
        true
    }
}

} // verus!
