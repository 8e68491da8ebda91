//! Building the tree of a directory: every file and link becomes a blob,
//! every directory a tree of its members, children before parents.

use vstd::prelude::*;
use crate::blob::{blob_bytes, Blob};
use crate::frame::{copy_range, same};
use crate::hash::sha1_digest;
use crate::tree::{
    entry_mode, entry_views, lemma_sorted_members, mode_word, sorted_entries, tree_bytes,
    EntryView, FileKind, Tree, TreeEntry,
};

verus! {

/// What a member of a directory is, with what was read of it.
#[derive(Debug)]
pub enum Node {
    /// A file: its bytes, and whether it may be executed.
    File { contents: Vec<u8>, executable: bool },
    /// A symbolic link: the path it points at.
    Symlink { target: Vec<u8> },
    /// A directory: its members.
    Directory(Vec<Member>),
}

/// A named member of a directory.
#[derive(Debug)]
pub struct Member {
    pub name: Vec<u8>,
    pub node: Node,
}

/// Whether a file with the given permission bits counts as executable:
/// the lowest bit, which lets anyone execute it, is set.
pub fn is_executable(mode: u32) -> (r: bool)
    ensures
        r == (mode % 2 == 1),
{
    mode % 2 == 1
}

/// Whether a member of the given name gets an entry: every member does
/// but one named like the store's own directory.
pub fn is_kept(name: &[u8], skip: &[u8]) -> (r: bool)
    ensures
        r == (name@ != skip@),
{
    !same(name, skip)
}

/// The mode word of a member.
pub open spec fn node_mode(node: Node) -> Seq<u8> {
    match node {
        Node::File { contents, executable } => mode_word(FileKind::File, executable),
        Node::Symlink { target } => mode_word(FileKind::Symlink, false),
        Node::Directory(members) => mode_word(FileKind::Directory, false),
    }
}

/// The canonical bytes of the object that a member becomes: a blob of a
/// file's bytes or of a link's target, the tree of a directory's members.
/// Members named `skip` are passed over at every level.
pub open spec fn node_bytes(node: Node, skip: Seq<u8>) -> Seq<u8>
    decreases node,
{
    match node {
        Node::File { contents, executable } => blob_bytes(contents@),
        Node::Symlink { target } => blob_bytes(target@),
        Node::Directory(members) => tree_bytes(member_entries(members@, skip)),
    }
}

/// The entry of one member: its mode, its name, and the fingerprint of the
/// object it becomes.
pub open spec fn member_entry(member: Member, skip: Seq<u8>) -> EntryView
    decreases member,
{
    EntryView {
        mode: node_mode(member.node),
        name: member.name@,
        hash: sha1_digest(node_bytes(member.node, skip)),
    }
}

/// The entries of a directory's members, in the order given. A member
/// named `skip` has no entry.
pub open spec fn member_entries(members: Seq<Member>, skip: Seq<u8>) -> Seq<EntryView>
    decreases members,
{
    if members.len() == 0 {
        Seq::empty()
    } else if members.last().name@ == skip {
        member_entries(members.drop_last(), skip)
    } else {
        member_entries(members.drop_last(), skip).push(member_entry(members.last(), skip))
    }
}

/// The canonical bytes of every object under a member and of the member
/// itself, children before parents.
pub open spec fn node_objects(node: Node, skip: Seq<u8>) -> Seq<Seq<u8>>
    decreases node,
{
    match node {
        Node::File { contents, executable } => seq![blob_bytes(contents@)],
        Node::Symlink { target } => seq![blob_bytes(target@)],
        Node::Directory(members) => tree_objects(members@, skip),
    }
}

/// The canonical bytes of every object under the members of a directory,
/// in the order given, and last those of the directory's own tree.
pub open spec fn tree_objects(members: Seq<Member>, skip: Seq<u8>) -> Seq<Seq<u8>>
    decreases members, 1int,
{
    members_objects(members, skip).push(tree_bytes(member_entries(members, skip)))
}

/// The canonical bytes of every object under the members of a directory.
/// Nothing under a member named `skip` is among them.
pub open spec fn members_objects(members: Seq<Member>, skip: Seq<u8>) -> Seq<Seq<u8>>
    decreases members, 0int,
{
    if members.len() == 0 {
        Seq::empty()
    } else if members.last().name@ == skip {
        members_objects(members.drop_last(), skip)
    } else {
        members_objects(members.drop_last(), skip) + node_objects(members.last().node, skip)
    }
}

/// The byte strings of a run of objects.
pub open spec fn object_views(s: Seq<Vec<u8>>) -> Seq<Seq<u8>> {
    s.map_values(|v: Vec<u8>| v@)
}

/// An object with the given fingerprint is among the first `limit` of
/// `objects`.
pub open spec fn listed_before(objects: Seq<Seq<u8>>, limit: int, hash: Seq<u8>) -> bool {
    exists|j: int| 0 <= j < limit && j < objects.len() && sha1_digest(#[trigger] objects[j]) == hash
}

/// The objects of a member end with the member's own object.
pub proof fn lemma_node_objects_end(node: Node, skip: Seq<u8>)
    ensures
        node_objects(node, skip).len() > 0,
        node_objects(node, skip).last() == node_bytes(node, skip),
{
}

/// No entry of a directory bears the name that is passed over.
pub proof fn lemma_skip_has_no_entry(members: Seq<Member>, skip: Seq<u8>)
    ensures
        forall|i: int|
            0 <= i < member_entries(members, skip).len() ==> (#[trigger] member_entries(
                members,
                skip,
            )[i]).name != skip,
    decreases members.len(),
{
    if members.len() > 0 {
        let head = member_entries(members.drop_last(), skip);
        let entries = member_entries(members, skip);
        lemma_skip_has_no_entry(members.drop_last(), skip);
        assert forall|i: int| 0 <= i < entries.len() implies (#[trigger] entries[i]).name
            != skip by {
            if i < head.len() {
                assert(entries[i] == head[i]);
            } else {
                assert(entries[i] == member_entry(members.last(), skip));
            }
        }
    }
}

/// The object that an entry names is listed among the objects under the
/// directory's members: children come before the tree that names them.
pub proof fn lemma_children_listed(members: Seq<Member>, skip: Seq<u8>)
    ensures
        forall|i: int|
            0 <= i < member_entries(members, skip).len() ==> listed_before(
                members_objects(members, skip),
                members_objects(members, skip).len() as int,
                (#[trigger] member_entries(members, skip)[i]).hash,
            ),
    decreases members.len(),
{
    if members.len() > 0 {
        let head = members.drop_last();
        let last = members.last();
        lemma_children_listed(head, skip);
        let entries = member_entries(members, skip);
        let objects = members_objects(members, skip);
        let head_entries = member_entries(head, skip);
        let head_objects = members_objects(head, skip);
        if last.name@ != skip {
            lemma_node_objects_end(last.node, skip);
            let own = node_objects(last.node, skip);
            assert forall|i: int| 0 <= i < entries.len() implies listed_before(
                objects,
                objects.len() as int,
                (#[trigger] entries[i]).hash,
            ) by {
                if i < head_entries.len() {
                    assert(entries[i] == head_entries[i]);
                    assert(listed_before(
                        head_objects,
                        head_objects.len() as int,
                        head_entries[i].hash,
                    ));
                    let j = choose|j: int|
                        0 <= j < head_objects.len() && j < head_objects.len() && sha1_digest(
                            #[trigger] head_objects[j],
                        ) == head_entries[i].hash;
                    assert(objects[j] == head_objects[j]);
                    assert(sha1_digest(objects[j]) == entries[i].hash);
                } else {
                    let j = head_objects.len() + own.len() - 1;
                    assert(entries[i] == member_entry(last, skip));
                    assert(objects[j] == own[own.len() - 1]);
                    assert(sha1_digest(objects[j]) == entries[i].hash);
                }
            }
        }
    }
}

/// What building a directory gives: its tree, and the canonical bytes of
/// every object to store, children before parents, the tree itself last.
#[derive(Debug, Clone)]
pub struct Built {
    pub tree: Tree,
    pub objects: Vec<Vec<u8>>,
}

/// Builds the tree of a directory from its members, passing over every
/// member named `skip`, the store's own directory. Nothing is stored: the
/// objects are handed back whole, children before the trees that name
/// them, so that no tree is ever stored that names a child which is not.
pub fn build(members: &Vec<Member>, skip: &[u8]) -> (built: Built)
    ensures
        built.tree.wf(),
        built.tree.write_data@ == tree_bytes(member_entries(members@, skip@)),
        built.tree@ == sorted_entries(member_entries(members@, skip@)),
        object_views(built.objects@) == tree_objects(members@, skip@),
        forall|i: int| 0 <= i < built.tree@.len() ==> (#[trigger] built.tree@[i]).name != skip@,
        forall|i: int|
            0 <= i < built.tree@.len() ==> listed_before(
                object_views(built.objects@),
                built.objects@.len() - 1,
                (#[trigger] built.tree@[i]).hash,
            ),
    decreases members,
{
    let mut entries: Vec<TreeEntry> = Vec::new();
    let mut objects: Vec<Vec<u8>> = Vec::new();
    let mut i: usize = 0;
    proof {
        assert(members@.subrange(0, 0) =~= Seq::<Member>::empty());
        assert(entry_views(entries@) =~= Seq::<EntryView>::empty());
        assert(object_views(objects@) =~= Seq::<Seq<u8>>::empty());
    }
    while i < members.len()
        invariant
            i <= members@.len(),
            entry_views(entries@) == member_entries(members@.subrange(0, i as int), skip@),
            object_views(objects@) == members_objects(members@.subrange(0, i as int), skip@),
        decreases members@.len() - i,
    {
        let member = &members[i];
        let ghost prefix = members@.subrange(0, i + 1);
        let ghost entries_before = entry_views(entries@);
        let ghost objects_before = object_views(objects@);
        proof {
            assert(prefix.drop_last() =~= members@.subrange(0, i as int));
            assert(prefix.last() == *member);
        }
        if is_kept(member.name.as_slice(), skip) {
            let name = member.name.as_slice();
            proof {
                assert(name@.subrange(0, name@.len() as int) =~= name@);
            }
            let name = copy_range(name, 0, name.len());
            let (mode, hash) = match &member.node {
                Node::File { contents, executable } => {
                    let c = contents.as_slice();
                    assert(c@.subrange(0, c@.len() as int) =~= c@);
                    let blob = Blob::new(copy_range(c, 0, c.len()));
                    let hash = blob.sha1_hash;
                    objects.push(blob.write_data);
                    proof {
                        assert(object_views(objects@) =~= objects_before + node_objects(
                            member.node,
                            skip@,
                        ));
                    }
                    (entry_mode(FileKind::File, *executable), hash)
                },
                Node::Symlink { target } => {
                    let t = target.as_slice();
                    assert(t@.subrange(0, t@.len() as int) =~= t@);
                    let blob = Blob::new(copy_range(t, 0, t.len()));
                    let hash = blob.sha1_hash;
                    objects.push(blob.write_data);
                    proof {
                        assert(object_views(objects@) =~= objects_before + node_objects(
                            member.node,
                            skip@,
                        ));
                    }
                    (entry_mode(FileKind::Symlink, false), hash)
                },
                Node::Directory(inner) => {
                    let sub = build(inner, skip);
                    let hash = sub.tree.sha1_hash;
                    let mut found = sub.objects;
                    let ghost found_views = object_views(found@);
                    objects.append(&mut found);
                    proof {
                        assert(object_views(objects@) =~= objects_before + found_views);
                    }
                    (entry_mode(FileKind::Directory, false), hash)
                },
            };
            entries.push(TreeEntry { mode, name, sha1_hash: hash });
            proof {
                assert(entry_views(entries@) =~= entries_before.push(member_entry(*member, skip@)));
                assert(object_views(objects@) == objects_before + node_objects(
                    member.node,
                    skip@,
                ));
                assert(members_objects(prefix, skip@) == objects_before + node_objects(
                    member.node,
                    skip@,
                ));
            }
        } else {
            proof {
                assert(members_objects(prefix, skip@) == objects_before);
                assert(member_entries(prefix, skip@) == entries_before);
            }
        }
        i = i + 1;
    }
    proof {
        assert(members@.subrange(0, i as int) =~= members@);
    }
    let ghost listed = entry_views(entries@);
    let tree = Tree::new(entries);
    let ghost before = object_views(objects@);
    let d = tree.write_data.as_slice();
    assert(d@.subrange(0, d@.len() as int) =~= d@);
    objects.push(copy_range(d, 0, d.len()));
    proof {
        assert(object_views(objects@) =~= before.push(tree.write_data@));
        lemma_skip_has_no_entry(members@, skip@);
        lemma_children_listed(members@, skip@);
        lemma_sorted_members(listed);
        assert forall|i: int| 0 <= i < tree@.len() implies (#[trigger] tree@[i]).name != skip@
            && listed_before(object_views(objects@), objects@.len() - 1, tree@[i].hash) by {
            assert(listed.contains(tree@[i]));
            let k = choose|k: int| 0 <= k < listed.len() && listed[k] == tree@[i];
            assert(listed_before(before, before.len() as int, listed[k].hash));
            let j = choose|j: int|
                0 <= j < before.len() && j < before.len() && sha1_digest(#[trigger] before[j])
                    == listed[k].hash;
            assert(object_views(objects@)[j] == before[j]);
        }
    }
    Built { tree, objects }
}

} // verus!
