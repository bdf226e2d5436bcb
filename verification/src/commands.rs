//! What each command does to a store.

use crate::compressor::zlib_deflate;
use crate::error::Error;
use crate::error::HashFault;
use crate::fs_utils::FsUtils;
use crate::fs_utils::kept;
use crate::fs_utils::name_of;
use crate::fs_utils::readable;
use crate::fs_utils::stored_object;
use crate::git_object::GIT_OBJECT_TYPE_BLOB;
use crate::git_object::GitObject;
use crate::git_object::Object;
use crate::git_object::commit_text;
use crate::hasher::HASH_BYTES_LENGTH;
use crate::hasher::to_hex;
use crate::work_tree::DirEntry;
use crate::work_tree::store_with_tree;
use crate::work_tree::tree_bytes;
use crate::work_tree::tree_deflates;
use crate::work_tree::tree_entries;
use vstd::prelude::*;

verus! {

/// The content of what was read, if it is a blob. An object of another kind
/// is a fault of the hash that named it.
pub open spec fn blob_content(outcome: Result<Object, Error>) -> Result<Seq<u8>, Error> {
    match outcome {
        Ok(Object::Blob(content)) => Ok(content),
        Ok(_) => Err(Error::InvalidHash(HashFault::WrongKind)),
        Err(e) => Err(e),
    }
}

/// The names of the entries of what was read, in order, if it is a tree. An
/// object of another kind is a fault of the hash that named it.
pub open spec fn tree_names(outcome: Result<Object, Error>) -> Result<Seq<Seq<char>>, Error> {
    match outcome {
        Ok(Object::Tree(entries)) => Ok(Seq::new(entries.len(), |i: int| entries[i].path)),
        Ok(_) => Err(Error::InvalidHash(HashFault::WrongKind)),
        Err(e) => Err(e),
    }
}

/// The texts of a sequence of strings.
pub open spec fn texts_of(names: Seq<String>) -> Seq<Seq<char>> {
    Seq::new(names.len(), |i: int| names[i]@)
}

/// `cat-file`: the content of the blob that `blob_hash` names. Fails as
/// reading the object does, and with `HashFault::WrongKind` where the
/// object is no blob.
pub fn execute_cat_file_command(store: &FsUtils, blob_hash: &str) -> (res: Result<Vec<u8>, Error>)
    requires
        store.well_formed(),
    ensures
        match res {
            Ok(content) => blob_content(stored_object(store@, blob_hash@)) == Ok::<
                Seq<u8>,
                Error,
            >(content@),
            Err(e) => blob_content(stored_object(store@, blob_hash@)) == Err::<Seq<u8>, Error>(e),
        },
{
    match store.read_object_with_hash(blob_hash) {
        Ok(GitObject::Blob(content)) => Ok(content),
        Ok(_) => Err(Error::InvalidHash(HashFault::WrongKind)),
        Err(e) => Err(e),
    }
}

/// `hash-object`: keeps the bytes of a file as a blob and returns its name.
/// Succeeds exactly where the canonical bytes of the blob deflate; otherwise
/// fails with `Error::Io` and leaves the store as it is.
pub fn execute_hash_object_command(store: &mut FsUtils, file_bytes: &[u8]) -> (res: Result<
    String,
    Error,
>)
    requires
        old(store).well_formed(),
    ensures
        final(store).well_formed(),
        (res is Ok) == zlib_deflate(Object::Blob(file_bytes@).encoding()).is_some(),
        match res {
            Ok(name) => name@ == name_of(Object::Blob(file_bytes@).encoding()) && kept(
                old(store)@,
                Object::Blob(file_bytes@).encoding(),
                final(store)@,
            ),
            Err(e) => e == Error::Io && final(store)@ == old(store)@,
        },
{
    match store.write_raw_object(GIT_OBJECT_TYPE_BLOB, file_bytes) {
        Ok(hash) => Ok(to_hex(hash.as_slice())),
        Err(e) => Err(e),
    }
}

/// `ls-tree`: the names of the entries of the tree that `tree_hash` names,
/// in the order of the tree. Fails as reading the object does, and with
/// `HashFault::WrongKind` where the object is no tree.
pub fn execute_list_tree_command(store: &FsUtils, tree_hash: &str) -> (res: Result<
    Vec<String>,
    Error,
>)
    requires
        store.well_formed(),
    ensures
        match res {
            Ok(names) => tree_names(stored_object(store@, tree_hash@)) == Ok::<
                Seq<Seq<char>>,
                Error,
            >(texts_of(names@)),
            Err(e) => tree_names(stored_object(store@, tree_hash@)) == Err::<
                Seq<Seq<char>>,
                Error,
            >(e),
        },
{
    match store.read_object_with_hash(tree_hash) {
        Ok(GitObject::Tree(lines)) => {
            let mut names: Vec<String> = Vec::new();
            let mut i: usize = 0;
            while i < lines.0.len()
                invariant
                    i <= lines.0@.len(),
                    names@.len() == i,
                    forall|j: int| 0 <= j < i ==> (#[trigger] names@[j])@ == lines@[j].path,
                decreases lines.0@.len() - i,
            {
                names.push(lines.0[i].path.clone());
                i = i + 1;
            }
            proof {
                let entries = lines@;
                assert(texts_of(names@) =~= Seq::new(entries.len(), |i: int| entries[i].path));
            }
            Ok(names)
        },
        Ok(_) => Err(Error::InvalidHash(HashFault::WrongKind)),
        Err(e) => Err(e),
    }
}

/// `write-tree`: builds and keeps the tree of a directory with all that is
/// below it, and returns the name of the tree. Succeeds exactly where every
/// object of the walk deflates; otherwise fails with `Error::Io` at the
/// first that does not, and what was kept until then stays.
pub fn execute_write_tree_command(store: &mut FsUtils, entries: &Vec<DirEntry>) -> (res: Result<
    String,
    Error,
>)
    requires
        old(store).well_formed(),
    ensures
        final(store).well_formed(),
        old(store)@.dom().subset_of(final(store)@.dom()),
        final(store)@ == store_with_tree(old(store)@, entries@),
        (res is Ok) == tree_deflates(entries@),
        match res {
            Ok(name) => {
                &&& name@ == name_of(tree_bytes(entries@))
                &&& readable(final(store)@, tree_bytes(entries@))
                &&& forall|k: int|
                    0 <= k < tree_entries(entries@).len() ==> (#[trigger] tree_entries(
                        entries@,
                    )[k]).hash.len() == HASH_BYTES_LENGTH
            },
            Err(e) => e == Error::Io,
        },
{
    match store.write_tree(entries) {
        Ok(hash) => Ok(to_hex(hash.as_slice())),
        Err(e) => Err(e),
    }
}

/// `commit-tree`: keeps the commit of the given tree, parent and message,
/// and returns its name. Succeeds exactly where the canonical bytes of the
/// commit deflate; otherwise fails with `Error::Io` and leaves the store as
/// it is.
pub fn execute_commit_tree_command(
    store: &mut FsUtils,
    tree_hash: &str,
    parent_commit_hash: &str,
    message: &str,
) -> (res: Result<String, Error>)
    requires
        old(store).well_formed(),
    ensures
        final(store).well_formed(),
        (res is Ok) == zlib_deflate(
            Object::Commit(commit_text(tree_hash@, parent_commit_hash@, message@)).encoding(),
        ).is_some(),
        match res {
            Ok(name) => {
                let commit = Object::Commit(
                    commit_text(tree_hash@, parent_commit_hash@, message@),
                );
                name@ == name_of(commit.encoding()) && kept(
                    old(store)@,
                    commit.encoding(),
                    final(store)@,
                )
            },
            Err(e) => e == Error::Io && final(store)@ == old(store)@,
        },
{
    let commit = GitObject::new_commit(tree_hash, parent_commit_hash, message);
    store.write_object(&commit)
}

} // verus!
