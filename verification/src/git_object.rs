//! The three kinds of object and their canonical bytes.

pub mod tree_line;
pub mod tree_lines;

use crate::bytes::copy_range;
use crate::bytes::decimal;
use crate::bytes::extend;
use crate::bytes::find_from;
use crate::bytes::first_index;
use crate::bytes::lemma_decimal_digits;
use crate::bytes::lemma_first_index_skips;
use crate::bytes::range_is;
use crate::error::Error;
use crate::fs_utils::FsUtils;
use crate::git_object::tree_line::TreeEntry;
use crate::git_object::tree_lines::TreeLines;
use crate::git_object::tree_lines::all_well_formed;
use crate::git_object::tree_lines::decode_entries;
use crate::git_object::tree_lines::encode_entries;
use crate::git_object::tree_lines::lemma_decode_encode;
use crate::text::lemma_text_of_bytes;
use crate::text::read_text;
use crate::text::text_of;
use vstd::prelude::*;
use vstd::utf8::encode_utf8;

verus! {

/// The tag of a blob.
pub const GIT_OBJECT_TYPE_BLOB: &'static str = "blob";

/// The tag of a tree.
pub const GIT_OBJECT_TYPE_TREE: &'static str = "tree";

/// The tag of a commit.
pub const GIT_OBJECT_TYPE_COMMIT: &'static str = "commit";

/// The line that names the author of every commit.
pub const COMMIT_AUTHOR_LINE: &'static str =
    "author Johnny Bravo <johnny@bravo.com> 1493170892 -0500\n";

/// The line that names the committer of every commit, and the empty line
/// after it.
pub const COMMIT_COMMITTER_LINE: &'static str =
    "committer Johnny Bravo <johnny@bravo.com> 1493170892 -0500\n\n";

/// An object as a value: what a `GitObject` holds.
pub enum Object {
    /// The content of a file.
    Blob(Seq<u8>),
    /// The entries of a directory, in order.
    Tree(Seq<TreeEntry>),
    /// The text of a commit.
    Commit(Seq<char>),
}

/// The header of an object: the tag, a space, the length of the payload in
/// decimal, and a NUL.
pub open spec fn header(tag: Seq<u8>, len: nat) -> Seq<u8> {
    tag + seq![32u8] + decimal(len) + seq![0u8]
}

impl Object {
    /// The tag of the object: `blob`, `tree` or `commit`.
    pub open spec fn tag(self) -> Seq<char> {
        match self {
            Object::Blob(_) => GIT_OBJECT_TYPE_BLOB@,
            Object::Tree(_) => GIT_OBJECT_TYPE_TREE@,
            Object::Commit(_) => GIT_OBJECT_TYPE_COMMIT@,
        }
    }

    /// The payload of the object: the content of a blob, the entries of a
    /// tree one after the other, the bytes of a commit's text.
    pub open spec fn payload(self) -> Seq<u8> {
        match self {
            Object::Blob(content) => content,
            Object::Tree(entries) => encode_entries(entries),
            Object::Commit(text) => encode_utf8(text),
        }
    }

    /// The canonical bytes of the object: its header, then its payload.
    /// These are the bytes that are hashed and that are compressed.
    pub open spec fn encoding(self) -> Seq<u8> {
        header(encode_utf8(self.tag()), self.payload().len()) + self.payload()
    }

    /// An object that can be read back from its bytes: every entry of a tree
    /// is well formed.
    pub open spec fn well_formed(self) -> bool {
        match self {
            Object::Tree(entries) => all_well_formed(entries),
            _ => true,
        }
    }

    /// The object of the given tag and payload. A tree's payload that
    /// cannot be read gives `Error::MalformedTree`; a tag that is none of
    /// the three gives `Error::UnknownObjectType`.
    pub open spec fn of_tag(tag: Seq<u8>, payload: Seq<u8>) -> Result<Object, Error> {
        if tag == encode_utf8(GIT_OBJECT_TYPE_BLOB@) {
            Ok(Object::Blob(payload))
        } else if tag == encode_utf8(GIT_OBJECT_TYPE_TREE@) {
            match decode_entries(payload) {
                Some(entries) => Ok(Object::Tree(entries)),
                None => Err(Error::MalformedTree),
            }
        } else if tag == encode_utf8(GIT_OBJECT_TYPE_COMMIT@) {
            Ok(Object::Commit(text_of(payload)))
        } else {
            Err(Error::UnknownObjectType)
        }
    }

    /// The object that canonical bytes stand for. The tag ends at the first
    /// space and the header at the first NUL after it; the payload is all
    /// that follows, whatever length the header gives. Where the space or
    /// the NUL is missing the result is `Error::TruncatedHeader`.
    pub open spec fn decoding(bytes: Seq<u8>) -> Result<Object, Error> {
        let space = first_index(bytes, 32);
        let rest = bytes.skip(space + 1);
        let nul = first_index(rest, 0);
        if space >= bytes.len() {
            Err(Error::TruncatedHeader)
        } else if nul >= rest.len() {
            Err(Error::TruncatedHeader)
        } else {
            Object::of_tag(bytes.take(space), rest.skip(nul + 1))
        }
    }
}

/// The bytes of the three tags hold no space and differ from each other.
pub proof fn lemma_tags()
    ensures
        encode_utf8(GIT_OBJECT_TYPE_BLOB@) == seq![98u8, 108u8, 111u8, 98u8],
        encode_utf8(GIT_OBJECT_TYPE_TREE@) == seq![116u8, 114u8, 101u8, 101u8],
        encode_utf8(GIT_OBJECT_TYPE_COMMIT@) == seq![99u8, 111u8, 109u8, 109u8, 105u8, 116u8],
{
    reveal_strlit("blob");
    reveal_strlit("tree");
    reveal_strlit("commit");
    let b = GIT_OBJECT_TYPE_BLOB@;
    let t = GIT_OBJECT_TYPE_TREE@;
    let c = GIT_OBJECT_TYPE_COMMIT@;
    assert(vstd::utf8::is_ascii_chars(b));
    assert(vstd::utf8::is_ascii_chars(t));
    assert(vstd::utf8::is_ascii_chars(c));
    vstd::utf8::is_ascii_chars_encode_utf8(b);
    vstd::utf8::is_ascii_chars_encode_utf8(t);
    vstd::utf8::is_ascii_chars_encode_utf8(c);
    assert(encode_utf8(b) =~= seq![98u8, 108u8, 111u8, 98u8]);
    assert(encode_utf8(t) =~= seq![116u8, 114u8, 101u8, 101u8]);
    assert(encode_utf8(c) =~= seq![99u8, 111u8, 109u8, 109u8, 105u8, 116u8]);
}

/// The payload that follows a header is found again behind it: the tag ends
/// at the first space, and the header at the first NUL after it.
pub proof fn lemma_header_split(tag: Seq<u8>, len: nat, payload: Seq<u8>)
    requires
        forall|i: int| 0 <= i < tag.len() ==> tag[i] != 32,
    ensures
        ({
            let bytes = header(tag, len) + payload;
            let space = first_index(bytes, 32);
            let rest = bytes.skip(space + 1);
            let nul = first_index(rest, 0);
            &&& space == tag.len()
            &&& space < bytes.len()
            &&& nul < rest.len()
            &&& bytes.take(space) == tag
            &&& rest.skip(nul + 1) == payload
        }),
{
    let bytes = header(tag, len) + payload;
    let digits = decimal(len);
    lemma_decimal_digits(len);
    let tail = seq![32u8] + digits + seq![0u8] + payload;
    assert(bytes =~= tag + tail);
    assert(first_index(tail, 32) == 0);
    lemma_first_index_skips(tag, tail, 32);
    let space = first_index(bytes, 32);
    let rest = bytes.skip(space + 1);
    let tail2 = seq![0u8] + payload;
    assert(rest =~= digits + tail2);
    assert(first_index(tail2, 0) == 0);
    assert forall|j: int| 0 <= j < digits.len() implies digits[j] != 0 by {
        assert(48 <= digits[j]);
    }
    lemma_first_index_skips(digits, tail2, 0);
    assert(bytes.take(space) =~= tag);
    assert(rest.skip(first_index(rest, 0) + 1) =~= payload);
}

/// Reading undoes writing: the canonical bytes of a well-formed object
/// stand for that object.
pub proof fn lemma_decoding_of_encoding(object: Object)
    requires
        object.well_formed(),
    ensures
        Object::decoding(object.encoding()) == Ok::<Object, Error>(object),
{
    lemma_tags();
    let tag = encode_utf8(object.tag());
    let payload = object.payload();
    lemma_header_split(tag, payload.len(), payload);
    match object {
        Object::Blob(_) => {},
        Object::Tree(entries) => {
            lemma_decode_encode(entries);
        },
        Object::Commit(text) => {
            lemma_text_of_bytes(text);
        },
    }
}

/// Writing is one-to-one: two well-formed objects with the same canonical
/// bytes are the same object.
pub proof fn lemma_encoding_injective(a: Object, b: Object)
    requires
        a.well_formed(),
        b.well_formed(),
        a.encoding() == b.encoding(),
    ensures
        a == b,
{
    lemma_decoding_of_encoding(a);
    lemma_decoding_of_encoding(b);
}

/// The order of the entries is part of what a tree is: the trees of two
/// different well-formed entries in one order and in the other have other
/// canonical bytes. Their digests are those of different bytes, so they
/// differ unless the digest itself gives one value for both.
pub proof fn lemma_tree_order_matters(a: TreeEntry, b: TreeEntry)
    requires
        a.well_formed(),
        b.well_formed(),
        a != b,
    ensures
        Object::Tree(seq![a, b]).encoding() != Object::Tree(seq![b, a]).encoding(),
{
    let ab = Object::Tree(seq![a, b]);
    let ba = Object::Tree(seq![b, a]);
    assert(seq![a, b][0] == a);
    assert(seq![b, a][0] == b);
    if ab.encoding() == ba.encoding() {
        lemma_encoding_injective(ab, ba);
        assert(seq![a, b] == seq![b, a]);
    }
}

/// An object: the content of a file, the listing of a directory, or the
/// text of a commit.
#[derive(Debug, Clone)]
pub enum GitObject {
    Blob(Vec<u8>),
    Tree(TreeLines),
    Commit(String),
}

impl View for GitObject {
    type V = Object;

    open spec fn view(&self) -> Object {
        match self {
            GitObject::Blob(content) => Object::Blob(content@),
            GitObject::Tree(lines) => Object::Tree(lines@),
            GitObject::Commit(text) => Object::Commit(text@),
        }
    }
}

/// Whether what was read is the given outcome.
pub open spec fn reads_as(res: Result<GitObject, Error>, outcome: Result<Object, Error>) -> bool {
    match res {
        Ok(object) => outcome == Ok::<Object, Error>(object@),
        Err(e) => outcome == Err::<Object, Error>(e),
    }
}

impl GitObject {
    /// The tag of the object: `blob`, `tree` or `commit`.
    pub fn object_type(&self) -> (tag: String)
        ensures
            tag@ == self@.tag(),
    {
        match self {
            GitObject::Blob(_) => GIT_OBJECT_TYPE_BLOB.to_owned(),
            GitObject::Tree(_) => GIT_OBJECT_TYPE_TREE.to_owned(),
            GitObject::Commit(_) => GIT_OBJECT_TYPE_COMMIT.to_owned(),
        }
    }

    /// The object of the given tag and payload. A blob holds the payload as
    /// it is, a tree the entries read from it, a commit the text read from
    /// it. Fails with `Error::MalformedTree` where a tree's payload cannot
    /// be read, and with `Error::UnknownObjectType` where the tag is none of
    /// `blob`, `tree`, `commit`.
    pub fn new(object_type: &str, content_bytes: &[u8]) -> (res: Result<Self, Error>)
        ensures
            reads_as(res, Object::of_tag(encode_utf8(object_type@), content_bytes@)),
    {
        Self::of_tag(object_type.as_bytes(), content_bytes)
    }

    /// As `new`, with the tag given by its bytes.
    pub fn of_tag(tag: &[u8], content_bytes: &[u8]) -> (res: Result<Self, Error>)
        ensures
            reads_as(res, Object::of_tag(tag@, content_bytes@)),
    {
        let n = tag.len();
        proof {
            assert(tag@.subrange(0, n as int) =~= tag@);
            assert(content_bytes@.subrange(0, content_bytes@.len() as int) =~= content_bytes@);
        }
        if range_is(tag, 0, n, GIT_OBJECT_TYPE_BLOB.as_bytes()) {
            let content = copy_range(content_bytes, 0, content_bytes.len());
            Ok(GitObject::Blob(content))
        } else if range_is(tag, 0, n, GIT_OBJECT_TYPE_TREE.as_bytes()) {
            match TreeLines::from_bytes(content_bytes) {
                Ok(lines) => Ok(GitObject::Tree(lines)),
                Err(e) => Err(e),
            }
        } else if range_is(tag, 0, n, GIT_OBJECT_TYPE_COMMIT.as_bytes()) {
            Ok(GitObject::Commit(read_text(content_bytes)))
        } else {
            Err(Error::UnknownObjectType)
        }
    }

    /// The commit of the given tree, parent and message: a line for the
    /// tree, one for the parent, the fixed lines of the author and the
    /// committer, an empty line, and the message with a line end.
    pub fn new_commit(tree_hash: &str, parent_commit_hash: &str, message: &str) -> (commit: Self)
        ensures
            commit@ == Object::Commit(commit_text(tree_hash@, parent_commit_hash@, message@)),
    {
        let mut text = String::from_str("tree ");
        text.append(tree_hash);
        text.append("\n");
        text.append("parent ");
        text.append(parent_commit_hash);
        text.append("\n");
        text.append(COMMIT_AUTHOR_LINE);
        text.append(COMMIT_COMMITTER_LINE);
        text.append(message);
        text.append("\n");
        GitObject::Commit(text)
    }

    /// The payload of the object: the content of a blob, the entries of a
    /// tree one after the other, the bytes of a commit's text.
    pub fn to_bytes(&self) -> (bytes: Vec<u8>)
        ensures
            bytes@ == self@.payload(),
    {
        match self {
            GitObject::Blob(content) => {
                let bytes = copy_range(content.as_slice(), 0, content.len());
                assert(content@.subrange(0, content@.len() as int) =~= content@);
                bytes
            },
            GitObject::Tree(lines) => lines.to_bytes(),
            GitObject::Commit(text) => {
                let raw = text.as_str().as_bytes();
                let bytes = copy_range(raw, 0, raw.len());
                assert(raw@.subrange(0, raw@.len() as int) =~= raw@);
                bytes
            },
        }
    }

    /// The canonical bytes of the object: the tag, a space, the length of
    /// the payload in decimal, a NUL, and the payload.
    pub fn encode(&self) -> (bytes: Vec<u8>)
        ensures
            bytes@ == self@.encoding(),
    {
        let payload = self.to_bytes();
        let tag = match self {
            GitObject::Blob(_) => GIT_OBJECT_TYPE_BLOB,
            GitObject::Tree(_) => GIT_OBJECT_TYPE_TREE,
            GitObject::Commit(_) => GIT_OBJECT_TYPE_COMMIT,
        };
        let mut bytes = FsUtils::get_header(tag, payload.as_slice());
        extend(&mut bytes, payload.as_slice());
        bytes
    }

    /// The bytes that name the object and that are stored for it: its
    /// canonical bytes, never the payload alone.
    pub fn identity_bytes(&self) -> (bytes: Vec<u8>)
        ensures
            bytes@ == self@.encoding(),
    {
        self.encode()
    }

    /// Reads canonical bytes. The tag ends at the first space and the header
    /// at the first NUL after it; the length that the header gives is not
    /// held against the payload. Fails with `Error::TruncatedHeader` where
    /// the space or the NUL is missing, and otherwise as `new` does for the
    /// tag and the payload.
    pub fn decode(bytes: &[u8]) -> (res: Result<Self, Error>)
        ensures
            reads_as(res, Object::decoding(bytes@)),
    {
        let space = find_from(bytes, 0, 32u8);
        proof {
            assert(bytes@.skip(0) =~= bytes@);
        }
        if space >= bytes.len() {
            return Err(Error::TruncatedHeader);
        }
        let nul = find_from(bytes, space + 1, 0u8);
        if nul >= bytes.len() {
            return Err(Error::TruncatedHeader);
        }
        let tag = copy_range(bytes, 0, space);
        let payload = copy_range(bytes, nul + 1, bytes.len());
        proof {
            let rest = bytes@.skip(space + 1);
            assert(bytes@.take(space as int) =~= tag@);
            assert(rest.skip(nul - space) =~= payload@);
        }
        Self::of_tag(tag.as_slice(), payload.as_slice())
    }
}

/// The text of a commit: a line for the tree, one for the parent, the fixed
/// lines of the author and the committer, an empty line, and the message
/// with a line end.
pub open spec fn commit_text(tree_hash: Seq<char>, parent: Seq<char>, message: Seq<char>) -> Seq<
    char,
> {
    "tree "@ + tree_hash + "\n"@ + "parent "@ + parent + "\n"@ + COMMIT_AUTHOR_LINE@
        + COMMIT_COMMITTER_LINE@ + message + "\n"@
}

/// The text of a commit begins with the line of the tree and the line of
/// the parent, and ends with the message and a line end.
pub proof fn lemma_commit_text_shape(tree_hash: Seq<char>, parent: Seq<char>, message: Seq<char>)
    ensures
        ("tree "@ + tree_hash + "\n"@ + "parent "@ + parent + "\n"@).is_prefix_of(
            commit_text(tree_hash, parent, message),
        ),
        (message + "\n"@).is_suffix_of(commit_text(tree_hash, parent, message)),
{
    let text = commit_text(tree_hash, parent, message);
    let start = "tree "@ + tree_hash + "\n"@ + "parent "@ + parent + "\n"@;
    let end = message + "\n"@;
    let middle = COMMIT_AUTHOR_LINE@ + COMMIT_COMMITTER_LINE@;
    assert(text =~= start + middle + end);
    assert(text.subrange(0, start.len() as int) =~= start);
    assert(text.subrange(text.len() - end.len(), text.len() as int) =~= end);
}

} // verus!
