//! A working directory as a value: files with their content, folders with
//! their entries. It is what a tree is built from.

use crate::compressor::zlib_deflate;
use crate::fs_utils::GIT_BASE_DIR;
use crate::fs_utils::name_of;
use crate::git_object::Object;
use crate::git_object::tree_line::Mode;
use crate::git_object::tree_line::TreeEntry;
use crate::git_object::tree_lines::distinct_paths;
use crate::git_object::tree_lines::is_sorted;
use crate::git_object::tree_lines::lemma_sort_entries;
use crate::git_object::tree_lines::lemma_sort_ignores_order;
use crate::git_object::tree_lines::lemma_sorted_entry_is_given;
use crate::git_object::tree_lines::sort_entries;
use crate::hasher::sha1_digest;
use vstd::prelude::*;

verus! {

/// What a name in a directory stands for.
#[derive(Debug)]
pub enum Node {
    /// A file, with its content.
    File(Vec<u8>),
    /// A folder, with its entries in the order in which they were listed.
    Folder(Vec<DirEntry>),
}

/// One entry of a directory.
#[derive(Debug)]
pub struct DirEntry {
    pub name: String,
    pub node: Node,
}

/// The mode that a tree gives to a node.
pub open spec fn mode_of(node: Node) -> Mode {
    match node {
        Node::File(_) => Mode::File,
        Node::Folder(_) => Mode::Folder,
    }
}

/// The canonical bytes of the object that stands for a node: a blob of the
/// content for a file, the tree of the entries for a folder.
pub open spec fn node_bytes(node: Node) -> Seq<u8>
    decreases node,
{
    match node {
        Node::File(content) => Object::Blob(content@).encoding(),
        Node::Folder(children) => Object::Tree(sort_entries(lines_of(children@))).encoding(),
    }
}

/// One tree entry for each entry of a directory, in the order in which they
/// were listed, with the digest of the object that stands for it. An entry
/// under the name of the store's own directory is left out.
pub open spec fn lines_of(entries: Seq<DirEntry>) -> Seq<TreeEntry>
    decreases entries,
{
    if entries.len() == 0 {
        Seq::empty()
    } else {
        let front = lines_of(entries.drop_last());
        let entry = entries.last();
        if entry.name@ == GIT_BASE_DIR@ {
            front
        } else {
            front.push(
                TreeEntry {
                    mode: mode_of(entry.node),
                    path: entry.name@,
                    hash: sha1_digest(node_bytes(entry.node)),
                },
            )
        }
    }
}

/// The entries of the tree of a directory: one for each entry but the
/// store's own directory, in the order of their names.
pub open spec fn tree_entries(entries: Seq<DirEntry>) -> Seq<TreeEntry> {
    sort_entries(lines_of(entries))
}

/// The canonical bytes of the tree of a directory.
pub open spec fn tree_bytes(entries: Seq<DirEntry>) -> Seq<u8> {
    Object::Tree(tree_entries(entries)).encoding()
}

/// Whether the object of a node deflates, and with it the objects of all
/// that is below the node.
pub open spec fn node_deflates(node: Node) -> bool
    decreases node,
{
    match node {
        Node::File(_) => zlib_deflate(node_bytes(node)).is_some(),
        Node::Folder(children) => entries_deflate(children@) && zlib_deflate(
            node_bytes(node),
        ).is_some(),
    }
}

/// Whether the objects of all entries deflate, at every depth. An entry
/// under the name of the store's own directory does not count, nor what is
/// below it.
pub open spec fn entries_deflate(entries: Seq<DirEntry>) -> bool
    decreases entries,
{
    if entries.len() == 0 {
        true
    } else {
        let entry = entries.last();
        entries_deflate(entries.drop_last()) && (entry.name@ == GIT_BASE_DIR@ || node_deflates(
            entry.node,
        ))
    }
}

/// Whether the tree of a directory can be kept with all that is below it:
/// the objects of all entries deflate, at every depth, and so does the tree.
pub open spec fn tree_deflates(entries: Seq<DirEntry>) -> bool {
    entries_deflate(entries) && zlib_deflate(tree_bytes(entries)).is_some()
}

/// `store` with canonical bytes kept as well: compressed, under their name.
/// Where the bytes do not deflate the store stays as it is.
pub open spec fn store_with(store: Map<Seq<char>, Seq<u8>>, bytes: Seq<u8>) -> Map<
    Seq<char>,
    Seq<u8>,
> {
    match zlib_deflate(bytes) {
        Some(stream) => store.insert(name_of(bytes), stream),
        None => store,
    }
}

/// `store` with the object of a node kept as well, after the objects of all
/// that is below it. Keeping ends at the first object that does not
/// deflate.
pub open spec fn store_with_node(store: Map<Seq<char>, Seq<u8>>, node: Node) -> Map<
    Seq<char>,
    Seq<u8>,
>
    decreases node,
{
    match node {
        Node::File(_) => store_with(store, node_bytes(node)),
        Node::Folder(children) => if entries_deflate(children@) {
            store_with(store_with_entries(store, children@), node_bytes(node))
        } else {
            store_with_entries(store, children@)
        },
    }
}

/// `store` with the objects of each entry kept as well, in the order in
/// which the entries were listed. Nothing is kept for an entry under the
/// name of the store's own directory, nor for what is below it. Keeping
/// ends at the first object that does not deflate.
pub open spec fn store_with_entries(store: Map<Seq<char>, Seq<u8>>, entries: Seq<DirEntry>) -> Map<
    Seq<char>,
    Seq<u8>,
>
    decreases entries,
{
    if entries.len() == 0 {
        store
    } else {
        let front = store_with_entries(store, entries.drop_last());
        let entry = entries.last();
        if !entries_deflate(entries.drop_last()) || entry.name@ == GIT_BASE_DIR@ {
            front
        } else {
            store_with_node(front, entry.node)
        }
    }
}

/// `store` with the tree of a directory kept as well, after the objects of
/// all that is below it. Keeping ends at the first object that does not
/// deflate.
pub open spec fn store_with_tree(store: Map<Seq<char>, Seq<u8>>, entries: Seq<DirEntry>) -> Map<
    Seq<char>,
    Seq<u8>,
> {
    if entries_deflate(entries) {
        store_with(store_with_entries(store, entries), tree_bytes(entries))
    } else {
        store_with_entries(store, entries)
    }
}

/// Once an object did not deflate, nothing more is kept: where the objects
/// of the first `k` entries do not all deflate, neither do those of all
/// entries, and the store is what it was after the first `k`.
pub proof fn lemma_keeping_ends(store: Map<Seq<char>, Seq<u8>>, entries: Seq<DirEntry>, k: int)
    requires
        0 <= k <= entries.len(),
        !entries_deflate(entries.take(k)),
    ensures
        !entries_deflate(entries),
        store_with_entries(store, entries) == store_with_entries(store, entries.take(k)),
    decreases entries.len() - k,
{
    if k == entries.len() {
        assert(entries.take(k) =~= entries);
    } else {
        let front = entries.drop_last();
        assert(front.take(k) =~= entries.take(k));
        lemma_keeping_ends(store, front, k);
    }
}

/// No entry made for a directory has the name of the store's own directory.
pub proof fn lemma_lines_exclude_meta(entries: Seq<DirEntry>)
    ensures
        forall|i: int|
            0 <= i < lines_of(entries).len() ==> (#[trigger] lines_of(entries)[i]).path
                != GIT_BASE_DIR@,
    decreases entries.len(),
{
    if entries.len() != 0 {
        lemma_lines_exclude_meta(entries.drop_last());
    }
}

/// The tree of a directory lists its entries in the order of their names,
/// whatever the order in which they were listed.
pub proof fn lemma_tree_is_sorted(entries: Seq<DirEntry>)
    ensures
        is_sorted(tree_entries(entries)),
        tree_entries(entries).to_multiset() == lines_of(entries).to_multiset(),
{
    lemma_sort_entries(lines_of(entries));
}

/// The store's own directory is never an entry of a tree. This holds of the
/// tree of every directory, and so at every depth: the tree of a folder is
/// the tree of its entries.
pub proof fn lemma_tree_excludes_meta(entries: Seq<DirEntry>)
    ensures
        forall|i: int|
            0 <= i < tree_entries(entries).len() ==> (#[trigger] tree_entries(entries)[i]).path
                != GIT_BASE_DIR@,
{
    let tree = tree_entries(entries);
    assert forall|i: int| 0 <= i < tree.len() implies (#[trigger] tree[i]).path
        != GIT_BASE_DIR@ by {
        lemma_tree_entry_comes_from_entry(entries, i);
    }
}

/// The tree entry that stands for an entry of a directory.
pub open spec fn line_of(entry: DirEntry) -> TreeEntry {
    TreeEntry {
        mode: mode_of(entry.node),
        path: entry.name@,
        hash: sha1_digest(node_bytes(entry.node)),
    }
}

/// Whether no two entries of a directory have the same name.
pub open spec fn distinct_names(entries: Seq<DirEntry>) -> bool {
    forall|i: int, j: int|
        0 <= i < j < entries.len() ==> (#[trigger] entries[i]).name@ != (#[trigger] entries[j]).name@
}

/// Every tree entry made for a directory stands for one of its entries.
pub proof fn lemma_lines_come_from_entries(entries: Seq<DirEntry>, i: int)
    requires
        0 <= i < lines_of(entries).len(),
    ensures
        exists|k: int|
            0 <= k < entries.len() && lines_of(entries)[i] == line_of(#[trigger] entries[k])
                && entries[k].name@ != GIT_BASE_DIR@,
    decreases entries.len(),
{
    let front = lines_of(entries.drop_last());
    let last = entries.last();
    if i < front.len() {
        lemma_lines_come_from_entries(entries.drop_last(), i);
        let k = choose|k: int|
            0 <= k < entries.drop_last().len() && front[i] == line_of(
                #[trigger] entries.drop_last()[k],
            ) && entries.drop_last()[k].name@ != GIT_BASE_DIR@;
        assert(entries.drop_last()[k] == entries[k]);
        assert(lines_of(entries)[i] == line_of(entries[k]));
    } else {
        assert(lines_of(entries)[i] == line_of(entries[entries.len() - 1]));
    }
}

/// Every entry of the tree of a directory stands for one of the entries of
/// the directory, and not for one under the name of the store's own
/// directory.
pub proof fn lemma_tree_entry_comes_from_entry(entries: Seq<DirEntry>, k: int)
    requires
        0 <= k < tree_entries(entries).len(),
    ensures
        exists|i: int|
            0 <= i < entries.len() && tree_entries(entries)[k] == line_of(#[trigger] entries[i])
                && entries[i].name@ != GIT_BASE_DIR@,
{
    let lines = lines_of(entries);
    lemma_sorted_entry_is_given(lines, k);
    let at = choose|at: int|
        0 <= at < lines.len() && #[trigger] lines[at] == sort_entries(lines)[k];
    lemma_lines_come_from_entries(entries, at);
    let i = choose|i: int|
        0 <= i < entries.len() && lines[at] == line_of(#[trigger] entries[i]) && entries[i].name@
            != GIT_BASE_DIR@;
    assert(tree_entries(entries)[k] == line_of(entries[i]));
}

/// The tree entries made for a directory without two entries of one name
/// have different names.
pub proof fn lemma_lines_are_distinct(entries: Seq<DirEntry>)
    requires
        distinct_names(entries),
    ensures
        distinct_paths(lines_of(entries)),
    decreases entries.len(),
{
    if entries.len() != 0 {
        let rest = entries.drop_last();
        let front = lines_of(rest);
        let lines = lines_of(entries);
        assert forall|i: int, j: int| 0 <= i < j < rest.len() implies (#[trigger] rest[i]).name@
            != (#[trigger] rest[j]).name@ by {
            assert(rest[i] == entries[i] && rest[j] == entries[j]);
        }
        lemma_lines_are_distinct(rest);
        assert forall|i: int, j: int| 0 <= i < j < lines.len() implies (#[trigger] lines[i]).path
            != (#[trigger] lines[j]).path by {
            if j < front.len() {
                assert(lines[i] == front[i] && lines[j] == front[j]);
            } else {
                lemma_lines_come_from_entries(rest, i);
                let k = choose|k: int|
                    0 <= k < rest.len() && front[i] == line_of(#[trigger] rest[k]) && rest[k].name@
                        != GIT_BASE_DIR@;
                assert(rest[k] == entries[k]);
                assert(entries[k].name@ != entries[entries.len() - 1].name@);
            }
        }
    }
}

/// An entry of a directory that is not under the name of the store's own
/// directory has its tree entry among those made for the directory.
pub proof fn lemma_listed_entry_has_line(entries: Seq<DirEntry>, at: int)
    requires
        0 <= at < entries.len(),
        entries[at].name@ != GIT_BASE_DIR@,
    ensures
        lines_of(entries).contains(line_of(entries[at])),
    decreases entries.len(),
{
    let rest = entries.drop_last();
    let lines = lines_of(entries);
    if at == entries.len() - 1 {
        assert(lines[lines.len() - 1] == line_of(entries[at]));
    } else {
        assert(rest[at] == entries[at]);
        lemma_listed_entry_has_line(rest, at);
        let k = choose|k: int| 0 <= k < lines_of(rest).len() && lines_of(rest)[k] == line_of(
            entries[at],
        );
        assert(lines[k] == line_of(entries[at]));
    }
}

/// Whether two nodes hold the same: two files the same content, two folders
/// the same entries, in whatever order they were listed.
pub open spec fn same_node(x: Node, y: Node) -> bool
    decreases x,
{
    match x {
        Node::File(content) => match y {
            Node::File(other) => content@ == other@,
            Node::Folder(_) => false,
        },
        Node::Folder(children) => match y {
            Node::File(_) => false,
            Node::Folder(others) => same_entries(children@, others@),
        },
    }
}

/// Whether two listings are listings of the same directory: each entry of
/// one has an entry of the same name in the other that holds the same, at
/// every depth, in whatever order the entries were listed.
pub open spec fn same_entries(a: Seq<DirEntry>, b: Seq<DirEntry>) -> bool
    decreases a,
{
    &&& forall|i: int|
        0 <= i < a.len() ==> exists|j: int|
            0 <= j < b.len() && (#[trigger] a[i]).name@ == (#[trigger] b[j]).name@ && same_node(
                a[i].node,
                b[j].node,
            )
    &&& forall|j: int|
        0 <= j < b.len() ==> exists|i: int|
            0 <= i < a.len() && (#[trigger] a[i]).name@ == (#[trigger] b[j]).name@ && same_node(
                a[i].node,
                b[j].node,
            )
}

/// Whether no two entries of a folder have the same name, in the folder
/// that a node is and in every folder below it.
pub open spec fn node_names_differ(node: Node) -> bool
    decreases node,
{
    match node {
        Node::File(_) => true,
        Node::Folder(children) => names_differ_everywhere(children@),
    }
}

/// Whether no two entries of a directory have the same name, in the
/// directory itself and in every folder below it.
pub open spec fn names_differ_everywhere(entries: Seq<DirEntry>) -> bool
    decreases entries,
{
    &&& distinct_names(entries)
    &&& forall|i: int| 0 <= i < entries.len() ==> node_names_differ((#[trigger] entries[i]).node)
}

/// Two nodes that hold the same stand for the same object.
pub proof fn lemma_same_node_same_bytes(x: Node, y: Node)
    requires
        same_node(x, y),
        node_names_differ(x),
        node_names_differ(y),
    ensures
        node_bytes(x) == node_bytes(y),
        mode_of(x) == mode_of(y),
    decreases x, 0int,
{
    match x {
        Node::File(_) => {},
        Node::Folder(children) => match y {
            Node::File(_) => {},
            Node::Folder(others) => {
                lemma_tree_ignores_listing_order(children@, others@);
            },
        },
    }
}

/// Of two entries of the same name that hold the same, each has the tree
/// entry of the other.
proof fn lemma_same_entry_same_line(a: Seq<DirEntry>, i: int, b: Seq<DirEntry>, j: int)
    requires
        0 <= i < a.len(),
        0 <= j < b.len(),
        a[i].name@ == b[j].name@,
        same_node(a[i].node, b[j].node),
        names_differ_everywhere(a),
        names_differ_everywhere(b),
    ensures
        line_of(a[i]) == line_of(b[j]),
    decreases a, 0int,
{
    assert(node_names_differ(a[i].node));
    assert(node_names_differ(b[j].node));
    lemma_same_node_same_bytes(a[i].node, b[j].node);
}

/// Of two listings of the same directory, each tree entry made for one is
/// made for the other.
proof fn lemma_same_entries_same_lines(a: Seq<DirEntry>, b: Seq<DirEntry>, e: TreeEntry)
    requires
        same_entries(a, b),
        names_differ_everywhere(a),
        names_differ_everywhere(b),
    ensures
        lines_of(a).contains(e) <==> lines_of(b).contains(e),
    decreases a, 1int,
{
    let la = lines_of(a);
    let lb = lines_of(b);
    if la.contains(e) {
        let k = choose|k: int| 0 <= k < la.len() && la[k] == e;
        lemma_lines_come_from_entries(a, k);
        let i = choose|i: int|
            0 <= i < a.len() && la[k] == line_of(#[trigger] a[i]) && a[i].name@ != GIT_BASE_DIR@;
        let j = choose|j: int|
            0 <= j < b.len() && a[i].name@ == (#[trigger] b[j]).name@ && same_node(
                a[i].node,
                b[j].node,
            );
        lemma_same_entry_same_line(a, i, b, j);
        lemma_listed_entry_has_line(b, j);
    }
    if lb.contains(e) {
        let k = choose|k: int| 0 <= k < lb.len() && lb[k] == e;
        lemma_lines_come_from_entries(b, k);
        let j = choose|j: int|
            0 <= j < b.len() && lb[k] == line_of(#[trigger] b[j]) && b[j].name@ != GIT_BASE_DIR@;
        let i = choose|i: int|
            0 <= i < a.len() && (#[trigger] a[i]).name@ == b[j].name@ && same_node(
                a[i].node,
                b[j].node,
            );
        lemma_same_entry_same_line(a, i, b, j);
        lemma_listed_entry_has_line(a, i);
    }
}

/// The tree of a directory does not depend on the order in which entries
/// were listed, in the directory itself or in any folder below it: two
/// listings of the same directory give the same tree, and so the same
/// canonical bytes and the same digest.
pub proof fn lemma_tree_ignores_listing_order(a: Seq<DirEntry>, b: Seq<DirEntry>)
    requires
        same_entries(a, b),
        names_differ_everywhere(a),
        names_differ_everywhere(b),
    ensures
        tree_entries(a) == tree_entries(b),
        tree_bytes(a) == tree_bytes(b),
    decreases a, 2int,
{
    let la = lines_of(a);
    let lb = lines_of(b);
    assert forall|e: TreeEntry| la.contains(e) <==> lb.contains(e) by {
        lemma_same_entries_same_lines(a, b, e);
    }
    lemma_lines_are_distinct(a);
    lemma_lines_are_distinct(b);
    lemma_sort_ignores_order(la, lb);
}

} // verus!
