//! One entry of a tree: a mode, a name and the digest of what the name
//! stands for.

use crate::bytes::extend;
use crate::error::Error;
use crate::hasher::HASH_BYTES_LENGTH;
use crate::text::has_no_nul;
use crate::text::same_text;
use vstd::prelude::*;
use vstd::utf8::encode_utf8;

verus! {

/// The mode of a file, as a tree writes it.
pub const TREE_LINE_MODE_FILE: &'static str = "100644";

/// The mode of a folder, as a tree writes it.
pub const TREE_LINE_MODE_FOLDER: &'static str = "40000";

/// What a tree entry points at: a file or a folder.
#[derive(Debug, Clone, Copy, PartialEq, Eq, Structural)]
pub enum Mode {
    File,
    Folder,
}

impl Mode {
    /// The text that stands for the mode in a tree.
    pub open spec fn text(self) -> Seq<char> {
        match self {
            Mode::File => TREE_LINE_MODE_FILE@,
            Mode::Folder => TREE_LINE_MODE_FOLDER@,
        }
    }

    /// The bytes that stand for the mode in a tree.
    pub open spec fn bytes(self) -> Seq<u8> {
        encode_utf8(self.text())
    }

    /// The mode that a text stands for, if it is one of the two.
    pub open spec fn of_text(text: Seq<char>) -> Option<Mode> {
        if text == Mode::File.text() {
            Some(Mode::File)
        } else if text == Mode::Folder.text() {
            Some(Mode::Folder)
        } else {
            None
        }
    }

    /// The mode that the bytes of a text stand for, if it is one of the two.
    pub open spec fn of_bytes(token: Seq<u8>) -> Option<Mode> {
        if token == Mode::File.bytes() {
            Some(Mode::File)
        } else if token == Mode::Folder.bytes() {
            Some(Mode::Folder)
        } else {
            None
        }
    }

    /// The bytes of the two modes, written out.
    pub proof fn lemma_bytes(self)
        ensures
            Mode::File.bytes() == seq![49u8, 48u8, 48u8, 54u8, 52u8, 52u8],
            Mode::Folder.bytes() == seq![52u8, 48u8, 48u8, 48u8, 48u8],
            Mode::of_bytes(self.bytes()) == Some(self),
            Mode::of_text(self.text()) == Some(self),
            forall|i: int| 0 <= i < self.bytes().len() ==> self.bytes()[i] != 32,
    {
        reveal_strlit("100644");
        reveal_strlit("40000");
        let f = Mode::File.text();
        let d = Mode::Folder.text();
        assert(vstd::utf8::is_ascii_chars(f));
        assert(vstd::utf8::is_ascii_chars(d));
        vstd::utf8::is_ascii_chars_encode_utf8(f);
        vstd::utf8::is_ascii_chars_encode_utf8(d);
        assert(Mode::File.bytes() =~= seq![49u8, 48u8, 48u8, 54u8, 52u8, 52u8]);
        assert(Mode::Folder.bytes() =~= seq![52u8, 48u8, 48u8, 48u8, 48u8]);
        assert(Mode::File.bytes().len() != Mode::Folder.bytes().len());
        assert(f.len() != d.len());
    }

    /// The text that stands for the mode in a tree.
    pub fn as_str(&self) -> (text: &'static str)
        ensures
            text@ == self.text(),
    {
        match self {
            Mode::File => TREE_LINE_MODE_FILE,
            Mode::Folder => TREE_LINE_MODE_FOLDER,
        }
    }

    /// Reads a mode. Any text but `100644` and `40000` is refused with
    /// `Error::MalformedTree`.
    pub fn from_string(mode_string: &str) -> (res: Result<Self, Error>)
        ensures
            res == match Mode::of_text(mode_string@) {
                Some(mode) => Ok::<Mode, Error>(mode),
                None => Err::<Mode, Error>(Error::MalformedTree),
            },
    {
        if same_text(mode_string, TREE_LINE_MODE_FILE) {
            Ok(Mode::File)
        } else if same_text(mode_string, TREE_LINE_MODE_FOLDER) {
            Ok(Mode::Folder)
        } else {
            Err(Error::MalformedTree)
        }
    }

    /// Writes the mode: `100644` for a file, `40000` for a folder.
    pub fn to_string(&self) -> (text: String)
        ensures
            text@ == self.text(),
    {
        self.as_str().to_owned()
    }
}

/// A tree entry as a value: what a `TreeLine` holds.
pub struct TreeEntry {
    pub mode: Mode,
    pub path: Seq<char>,
    pub hash: Seq<u8>,
}

impl TreeEntry {
    /// The bytes of the entry: the mode, a space, the name, a NUL, and the
    /// raw digest.
    pub open spec fn encoding(self) -> Seq<u8> {
        self.mode.bytes() + seq![32u8] + encode_utf8(self.path) + seq![0u8] + self.hash
    }

    /// An entry that can be read back from its bytes: the digest has twenty
    /// bytes and the name holds no NUL.
    pub open spec fn well_formed(self) -> bool {
        &&& self.hash.len() == HASH_BYTES_LENGTH
        &&& has_no_nul(self.path)
    }
}

/// One entry of a tree.
#[derive(Debug, Clone)]
pub struct TreeLine {
    pub mode: Mode,
    pub path: String,
    pub hash: Vec<u8>,
}

impl View for TreeLine {
    type V = TreeEntry;

    open spec fn view(&self) -> TreeEntry {
        TreeEntry { mode: self.mode, path: self.path@, hash: self.hash@ }
    }
}

impl TreeLine {
    /// An entry of the given mode, name and digest.
    pub fn new(mode: Mode, path: String, hash: Vec<u8>) -> (line: Self)
        ensures
            line.mode == mode,
            line.path == path,
            line.hash == hash,
            line@ == (TreeEntry { mode: mode, path: path@, hash: hash@ }),
    {
        Self { mode, path, hash }
    }

    /// The bytes of the entry: the mode, a space, the name, a NUL, and the
    /// raw digest.
    pub fn to_bytes(&self) -> (bytes: Vec<u8>)
        ensures
            bytes@ == self@.encoding(),
    {
        let mut bytes: Vec<u8> = Vec::new();
        extend(&mut bytes, self.mode.as_str().as_bytes());
        bytes.push(32u8);
        extend(&mut bytes, self.path.as_str().as_bytes());
        bytes.push(0u8);
        extend(&mut bytes, self.hash.as_slice());
        assert(bytes@ =~= self@.encoding());
        bytes
    }
}

} // verus!
