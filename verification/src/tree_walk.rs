//! Building the tree of a directory step by step, as the directory is
//! walked: one file's content at a time is all that has to be at hand.

use crate::compressor::zlib_deflate;
use crate::error::Error;
use crate::fs_utils::FsUtils;
use crate::fs_utils::GIT_BASE_DIR;
use crate::fs_utils::kept;
use crate::fs_utils::readable;
use crate::git_object::GIT_OBJECT_TYPE_BLOB;
use crate::git_object::GIT_OBJECT_TYPE_TREE;
use crate::git_object::Object;
use crate::git_object::tree_line::Mode;
use crate::git_object::tree_line::TreeEntry;
use crate::git_object::tree_line::TreeLine;
use crate::git_object::tree_lines::TreeLines;
use crate::git_object::tree_lines::entries_of;
use crate::git_object::tree_lines::sort_entries;
use crate::hasher::sha1_digest;
use crate::work_tree::store_with;
use vstd::prelude::*;

verus! {

/// A folder whose entries are still coming in.
#[derive(Debug)]
pub struct OpenFolder {
    pub name: String,
    pub lines: Vec<TreeLine>,
}

/// An open folder as a value: its name and the tree entries made so far,
/// in the order in which they came.
pub struct Pending {
    pub name: Seq<char>,
    pub lines: Seq<TreeEntry>,
}

impl View for OpenFolder {
    type V = Pending;

    open spec fn view(&self) -> Pending {
        Pending { name: self.name@, lines: entries_of(self.lines@) }
    }
}

/// The values of a sequence of open folders.
pub open spec fn pending_of(open: Seq<OpenFolder>) -> Seq<Pending> {
    Seq::new(open.len(), |i: int| open[i]@)
}

/// The open folders with one more tree entry in the innermost of them.
pub open spec fn with_line(open: Seq<Pending>, line: TreeEntry) -> Seq<Pending> {
    open.update(
        open.len() - 1,
        Pending { name: open.last().name, lines: open.last().lines.push(line) },
    )
}

/// The open folders with more tree entries in the innermost of them.
pub open spec fn with_lines(open: Seq<Pending>, lines: Seq<TreeEntry>) -> Seq<Pending> {
    open.update(open.len() - 1, Pending { name: open.last().name, lines: open.last().lines + lines })
}

/// The canonical bytes of the blob of a file's content.
pub open spec fn blob_bytes(content: Seq<u8>) -> Seq<u8> {
    Object::Blob(content).encoding()
}

/// The canonical bytes of the tree of the given entries, put in the order
/// of their names.
pub open spec fn sorted_tree_bytes(lines: Seq<TreeEntry>) -> Seq<u8> {
    Object::Tree(sort_entries(lines)).encoding()
}

/// A walk through a directory: the folders that are open, the outermost
/// first. The first of them is the directory itself.
#[derive(Debug)]
pub struct TreeWalk {
    open: Vec<OpenFolder>,
}

impl View for TreeWalk {
    type V = Seq<Pending>;

    closed spec fn view(&self) -> Seq<Pending> {
        pending_of(self.open@)
    }
}

impl TreeWalk {
    /// A walk at its start: the directory itself is open and has no entry
    /// yet.
    pub fn new() -> (walk: Self)
        ensures
            walk@ == seq![Pending { name: Seq::<char>::empty(), lines: Seq::<TreeEntry>::empty() }],
    {
        let mut open: Vec<OpenFolder> = Vec::new();
        let root = OpenFolder { name: String::new(), lines: Vec::new() };
        assert(root@.lines =~= Seq::<TreeEntry>::empty());
        open.push(root);
        let walk = TreeWalk { open };
        assert(walk@ =~= seq![
            Pending { name: Seq::<char>::empty(), lines: Seq::<TreeEntry>::empty() },
        ]);
        walk
    }

    /// The number of folders that are open.
    pub fn depth(&self) -> (depth: usize)
        ensures
            depth == self@.len(),
    {
        self.open.len()
    }

    /// Adds a tree entry to the innermost open folder.
    fn push_line(&mut self, line: TreeLine)
        requires
            old(self)@.len() >= 1,
        ensures
            final(self)@ == with_line(old(self)@, line@),
    {
        let ghost before = self.open@;
        let mut top = self.open.pop().unwrap();
        let ghost lines_before = top.lines@;
        top.lines.push(line);
        proof {
            assert(entries_of(top.lines@) =~= entries_of(lines_before).push(line@));
        }
        self.open.push(top);
        proof {
            assert(self.open@ =~= before.update(before.len() - 1, top));
            assert(self@ =~= with_line(pending_of(before), line@));
        }
    }

    /// A file was found in the innermost open folder. Its content is kept
    /// as a blob, and the folder gets an entry for it. A file under the
    /// name of the store's own directory is passed over. Succeeds exactly
    /// where the file is passed over or its blob deflates; otherwise fails
    /// with `Error::Io` and changes nothing.
    pub fn add_file(&mut self, store: &mut FsUtils, name: String, content: &[u8]) -> (res: Result<
        (),
        Error,
    >)
        requires
            old(store).well_formed(),
            old(self)@.len() >= 1,
        ensures
            final(store).well_formed(),
            name@ == GIT_BASE_DIR@ ==> res is Ok && final(store)@ == old(store)@ && final(self)@
                == old(self)@,
            name@ != GIT_BASE_DIR@ ==> {
                &&& (res is Ok) == zlib_deflate(blob_bytes(content@)).is_some()
                &&& final(store)@ == store_with(old(store)@, blob_bytes(content@))
                &&& res is Ok ==> kept(old(store)@, blob_bytes(content@), final(store)@)
                    && final(self)@ == with_line(
                    old(self)@,
                    TreeEntry {
                        mode: Mode::File,
                        path: name@,
                        hash: sha1_digest(blob_bytes(content@)),
                    },
                )
                &&& res matches Err(e) ==> e == Error::Io && final(self)@ == old(self)@
            },
    {
        if !FsUtils::is_listed(name.as_str()) {
            return Ok(());
        }
        match store.write_raw_object(GIT_OBJECT_TYPE_BLOB, content) {
            Ok(hash) => {
                self.push_line(TreeLine::new(Mode::File, name, hash));
                Ok(())
            },
            Err(e) => Err(e),
        }
    }

    /// A folder was found in the innermost open folder. It is opened, so
    /// that what is found in it next becomes its entries, and the answer is
    /// `true`. A folder under the name of the store's own directory is not
    /// opened: the answer is `false`, and nothing below it is to be handed
    /// in.
    pub fn open_folder(&mut self, name: String) -> (opened: bool)
        ensures
            opened == (name@ != GIT_BASE_DIR@),
            opened ==> final(self)@ == old(self)@.push(
                Pending { name: name@, lines: Seq::<TreeEntry>::empty() },
            ),
            !opened ==> final(self)@ == old(self)@,
    {
        if !FsUtils::is_listed(name.as_str()) {
            return false;
        }
        let ghost before = self.open@;
        let folder = OpenFolder { name: name, lines: Vec::new() };
        proof {
            assert(folder@.lines =~= Seq::<TreeEntry>::empty());
        }
        self.open.push(folder);
        proof {
            assert(self@ =~= pending_of(before).push(folder@));
        }
        true
    }

    /// The innermost open folder has no more entries. Its tree, with the
    /// entries in the order of their names, is kept, the folder is closed,
    /// and the folder around it gets an entry for it. Succeeds exactly
    /// where the tree deflates; otherwise fails with `Error::Io`, and the
    /// folder is closed without an entry for it.
    pub fn close_folder(&mut self, store: &mut FsUtils) -> (res: Result<(), Error>)
        requires
            old(store).well_formed(),
            old(self)@.len() >= 2,
        ensures
            final(store).well_formed(),
            (res is Ok) == zlib_deflate(sorted_tree_bytes(old(self)@.last().lines)).is_some(),
            final(store)@ == store_with(old(store)@, sorted_tree_bytes(old(self)@.last().lines)),
            res is Ok ==> kept(
                old(store)@,
                sorted_tree_bytes(old(self)@.last().lines),
                final(store)@,
            ) && final(self)@ == with_line(
                old(self)@.drop_last(),
                TreeEntry {
                    mode: Mode::Folder,
                    path: old(self)@.last().name,
                    hash: sha1_digest(sorted_tree_bytes(old(self)@.last().lines)),
                },
            ),
            res matches Err(e) ==> e == Error::Io && final(self)@ == old(self)@.drop_last(),
    {
        let ghost before = self.open@;
        let top = self.open.pop().unwrap();
        proof {
            assert(self@ =~= pending_of(before).drop_last());
        }
        let tree = TreeLines::sorted(top.lines);
        let payload = tree.to_bytes();
        match store.write_raw_object(GIT_OBJECT_TYPE_TREE, payload.as_slice()) {
            Ok(hash) => {
                self.push_line(TreeLine::new(Mode::Folder, top.name, hash));
                Ok(())
            },
            Err(e) => Err(e),
        }
    }

    /// The directory itself has no more entries. Its tree, with the entries
    /// in the order of their names, is kept, and its raw digest returned.
    /// Succeeds exactly where the tree deflates; otherwise fails with
    /// `Error::Io` and leaves the store as it is.
    pub fn finish(self, store: &mut FsUtils) -> (res: Result<Vec<u8>, Error>)
        requires
            old(store).well_formed(),
            self@.len() == 1,
        ensures
            final(store).well_formed(),
            (res is Ok) == zlib_deflate(sorted_tree_bytes(self@[0].lines)).is_some(),
            final(store)@ == store_with(old(store)@, sorted_tree_bytes(self@[0].lines)),
            match res {
                Ok(hash) => {
                    &&& hash@ == sha1_digest(sorted_tree_bytes(self@[0].lines))
                    &&& kept(old(store)@, sorted_tree_bytes(self@[0].lines), final(store)@)
                    &&& readable(final(store)@, sorted_tree_bytes(self@[0].lines))
                },
                Err(e) => e == Error::Io,
            },
    {
        let mut open = self.open;
        let top = open.pop().unwrap();
        let tree = TreeLines::sorted(top.lines);
        let payload = tree.to_bytes();
        store.write_raw_object(GIT_OBJECT_TYPE_TREE, payload.as_slice())
    }
}

} // verus!
