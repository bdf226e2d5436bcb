//! The store of loose objects: compressed canonical bytes, each kept under
//! the hexadecimal digest of what it holds.

use crate::bytes::extend;
use crate::bytes::has_prefix;
use crate::bytes::starts_with;
use crate::bytes::to_decimal;
use crate::compressor::Compressor;
use crate::compressor::zlib_deflate;
use crate::compressor::zlib_inflate;
use crate::error::Error;
use crate::error::HashFault;
use crate::git_object::GitObject;
use crate::git_object::Object;
use crate::git_object::header;
use crate::git_object::lemma_decoding_of_encoding;
use crate::git_object::reads_as;
use crate::git_object::tree_line::TreeEntry;
use crate::git_object::tree_lines::lemma_sorted_entry_is_given;
use crate::hasher::HASH_BYTES_LENGTH;
use crate::hasher::HASH_HEX_LENGTH;
use crate::hasher::create_hash;
use crate::hasher::hex_chars;
use crate::hasher::is_hex_char;
use crate::hasher::lemma_hex_chars_shape;
use crate::hasher::sha1_digest;
use crate::hasher::to_hex;
use crate::text::has_no_nul;
use crate::text::lemma_bytes_decide_text;
use crate::text::lemma_first_ascii;
use crate::text::same_text;
use crate::tree_walk::Pending;
use crate::tree_walk::TreeWalk;
use crate::tree_walk::with_line;
use crate::tree_walk::with_lines;
use crate::work_tree::DirEntry;
use crate::work_tree::Node;
use crate::work_tree::entries_deflate;
use crate::work_tree::lemma_keeping_ends;
use crate::work_tree::lemma_tree_entry_comes_from_entry;
use crate::work_tree::line_of;
use crate::work_tree::lines_of;
use crate::work_tree::node_deflates;
use crate::work_tree::store_with_entries;
use crate::work_tree::store_with_node;
use crate::work_tree::store_with_tree;
use crate::work_tree::tree_bytes;
use crate::work_tree::tree_deflates;
use crate::work_tree::tree_entries;
use vstd::prelude::*;
use vstd::utf8::encode_utf8;

verus! {

/// The directory that holds the store, below the root of a working
/// directory. It is never part of a tree.
pub const GIT_BASE_DIR: &'static str = ".git";

/// The directory of the objects: one directory for the first two characters
/// of a name, and in it one file for the other thirty-eight.
pub const GIT_OBJECTS_DIR: &'static str = ".git/objects";

/// The directory of the references.
pub const GIT_REFS_DIR: &'static str = ".git/refs";

/// The file that names the current branch.
pub const GIT_HEAD_FILE: &'static str = ".git/HEAD";

/// What the file that names the current branch holds at first.
pub const GIT_HEAD_CONTENT: &'static str = "ref: refs/heads/master\n";

/// The least number of characters by which an object is asked for.
pub const MIN_HASH_PREFIX: usize = 6;

/// One stored object: its name, and the compressed bytes kept under it.
#[derive(Debug, Clone)]
pub struct LooseObject {
    pub hash: String,
    pub data: Vec<u8>,
}

/// Whether `name` can name an object: forty lowercase hexadecimal digits.
pub open spec fn is_object_name(name: Seq<char>) -> bool {
    &&& name.len() == HASH_HEX_LENGTH
    &&& forall|i: int| 0 <= i < name.len() ==> is_hex_char(#[trigger] name[i])
}

/// Whether some object of `objects` has the name `name`.
pub open spec fn holds(objects: Seq<LooseObject>, name: Seq<char>) -> bool {
    exists|i: int| 0 <= i < objects.len() && (#[trigger] objects[i]).hash@ == name
}

/// The place of an object named `name` in `objects`.
pub open spec fn place(objects: Seq<LooseObject>, name: Seq<char>) -> int {
    choose|i: int| 0 <= i < objects.len() && (#[trigger] objects[i]).hash@ == name
}

/// What `objects` keep under each name.
pub open spec fn contents(objects: Seq<LooseObject>) -> Map<Seq<char>, Seq<u8>> {
    Map::new(
        |name: Seq<char>| holds(objects, name),
        |name: Seq<char>| objects[place(objects, name)].data@,
    )
}

/// Whether every name is the name of an object and none occurs twice.
pub open spec fn well_named(objects: Seq<LooseObject>) -> bool {
    &&& forall|i: int| 0 <= i < objects.len() ==> is_object_name((#[trigger] objects[i]).hash@)
    &&& forall|i: int, j: int|
        0 <= i < j < objects.len() ==> (#[trigger] objects[i]).hash@ != (#[trigger] objects[j]).hash@
}

/// Whether every key of `store` is the name of an object.
pub open spec fn store_well_formed(store: Map<Seq<char>, Seq<u8>>) -> bool {
    forall|name: Seq<char>| #[trigger] store.dom().contains(name) ==> is_object_name(name)
}

/// Whether `name` begins with `prefix`, byte for byte.
pub open spec fn name_matches(name: Seq<char>, prefix: Seq<char>) -> bool {
    starts_with(encode_utf8(name), encode_utf8(prefix))
}

/// The names in `store` that begin with `prefix`.
pub open spec fn matching(store: Map<Seq<char>, Seq<u8>>, prefix: Seq<char>) -> Set<Seq<char>> {
    Set::new(|name: Seq<char>| store.dom().contains(name) && name_matches(name, prefix))
}

/// The one name in `store` that begins with `prefix`. A prefix of fewer than
/// six characters is too short, whatever the store holds; otherwise no such
/// name is a fault, and more than one is another.
pub open spec fn find(store: Map<Seq<char>, Seq<u8>>, prefix: Seq<char>) -> Result<
    Seq<char>,
    HashFault,
> {
    let found = matching(store, prefix);
    let name = found.choose();
    if prefix.len() < MIN_HASH_PREFIX {
        Err(HashFault::TooShort)
    } else if forall|n: Seq<char>| !found.contains(n) {
        Err(HashFault::NotFound)
    } else if forall|n: Seq<char>| found.contains(n) ==> n == name {
        Ok(name)
    } else {
        Err(HashFault::Ambiguous)
    }
}

/// The object that `store` holds under the one name that begins with
/// `prefix`: what is kept under it, decompressed and read.
pub open spec fn stored_object(store: Map<Seq<char>, Seq<u8>>, prefix: Seq<char>) -> Result<
    Object,
    Error,
> {
    match find(store, prefix) {
        Err(fault) => Err(Error::InvalidHash(fault)),
        Ok(name) => match zlib_inflate(store[name]) {
            None => Err(Error::CorruptStream),
            Some(bytes) => Object::decoding(bytes),
        },
    }
}

/// The name under which canonical bytes are kept: their digest in
/// hexadecimal.
pub open spec fn name_of(bytes: Seq<u8>) -> Seq<char> {
    hex_chars(sha1_digest(bytes))
}

/// Whether `store` keeps canonical bytes under their name, in a stream that
/// decompresses to them.
pub open spec fn readable(store: Map<Seq<char>, Seq<u8>>, bytes: Seq<u8>) -> bool {
    &&& store.dom().contains(name_of(bytes))
    &&& zlib_inflate(store[name_of(bytes)]) == Some(bytes)
}

/// Whether `after` is `before` with `bytes` kept as well: compressed, under
/// their name, so that decompressing gives them back.
pub open spec fn kept(
    before: Map<Seq<char>, Seq<u8>>,
    bytes: Seq<u8>,
    after: Map<Seq<char>, Seq<u8>>,
) -> bool {
    &&& zlib_deflate(bytes) matches Some(stream) && after == before.insert(
        name_of(bytes),
        stream,
    ) && zlib_inflate(stream) == Some(bytes)
    &&& is_object_name(name_of(bytes))
}

/// The contents of well-named objects are a well-formed store, and each
/// object is kept under its name.
pub proof fn lemma_contents(objects: Seq<LooseObject>)
    requires
        well_named(objects),
    ensures
        store_well_formed(contents(objects)),
        forall|i: int|
            0 <= i < objects.len() ==> contents(objects).dom().contains(
                (#[trigger] objects[i]).hash@,
            ) && contents(objects)[objects[i].hash@] == objects[i].data@,
{
    assert forall|i: int| 0 <= i < objects.len() implies contents(objects).dom().contains(
        (#[trigger] objects[i]).hash@,
    ) && contents(objects)[objects[i].hash@] == objects[i].data@ by {
        let name = objects[i].hash@;
        assert(holds(objects, name));
        let p = place(objects, name);
        assert(p == i);
    }
}

/// With one more object under a new name, the contents hold that as well.
pub proof fn lemma_contents_push(objects: Seq<LooseObject>, object: LooseObject)
    requires
        well_named(objects),
        is_object_name(object.hash@),
        !holds(objects, object.hash@),
    ensures
        well_named(objects.push(object)),
        contents(objects.push(object)) == contents(objects).insert(object.hash@, object.data@),
{
    let more = objects.push(object);
    assert forall|i: int, j: int| 0 <= i < j < more.len() implies (#[trigger] more[i]).hash@ != (
    #[trigger] more[j]).hash@ by {
        if j == objects.len() {
            assert(more[i] == objects[i]);
            if more[i].hash@ == object.hash@ {
                assert(holds(objects, object.hash@));
            }
        } else {
            assert(more[i] == objects[i] && more[j] == objects[j]);
        }
    }
    assert forall|i: int| 0 <= i < more.len() implies is_object_name(
        (#[trigger] more[i]).hash@,
    ) by {
        if i < objects.len() {
            assert(more[i] == objects[i]);
        }
    }
    lemma_contents(more);
    lemma_contents(objects);
    let a = contents(more);
    let b = contents(objects).insert(object.hash@, object.data@);
    assert forall|name: Seq<char>| a.dom().contains(name) <==> b.dom().contains(name) by {
        if a.dom().contains(name) {
            let i = place(more, name);
            if i < objects.len() {
                assert(more[i] == objects[i]);
                assert(holds(objects, name));
            }
        }
        if b.dom().contains(name) {
            if name == object.hash@ {
                assert(more[objects.len() as int].hash@ == name);
            } else {
                let i = place(objects, name);
                assert(more[i] == objects[i]);
                assert(holds(more, name));
            }
        }
    }
    assert forall|name: Seq<char>| a.dom().contains(name) implies a[name] == b[name] by {
        let i = place(more, name);
        assert(a[name] == more[i].data@);
        if i < objects.len() {
            assert(more[i] == objects[i]);
            assert(contents(objects)[objects[i].hash@] == objects[i].data@);
        }
    }
    assert(a =~= b);
}

/// With an object replaced by one of the same name, the contents hold the
/// new one under that name.
pub proof fn lemma_contents_update(objects: Seq<LooseObject>, at: int, object: LooseObject)
    requires
        well_named(objects),
        0 <= at < objects.len(),
        objects[at].hash@ == object.hash@,
    ensures
        well_named(objects.update(at, object)),
        contents(objects.update(at, object)) == contents(objects).insert(
            object.hash@,
            object.data@,
        ),
{
    let more = objects.update(at, object);
    assert forall|i: int| 0 <= i < more.len() implies (#[trigger] more[i]).hash@
        == objects[i].hash@ by {}
    assert forall|i: int, j: int| 0 <= i < j < more.len() implies (#[trigger] more[i]).hash@ != (
    #[trigger] more[j]).hash@ by {
        assert(more[i].hash@ == objects[i].hash@);
        assert(more[j].hash@ == objects[j].hash@);
    }
    assert forall|i: int| 0 <= i < more.len() implies is_object_name(
        (#[trigger] more[i]).hash@,
    ) by {
        assert(more[i].hash@ == objects[i].hash@);
    }
    lemma_contents(more);
    lemma_contents(objects);
    let a = contents(more);
    let b = contents(objects).insert(object.hash@, object.data@);
    assert forall|name: Seq<char>| a.dom().contains(name) <==> b.dom().contains(name) by {
        if a.dom().contains(name) {
            let i = place(more, name);
            assert(objects[i].hash@ == name);
            assert(holds(objects, name));
        }
        if b.dom().contains(name) {
            if name == object.hash@ {
                assert(more[at].hash@ == name);
            } else {
                let i = place(objects, name);
                assert(more[i].hash@ == name);
                assert(holds(more, name));
            }
        }
    }
    assert forall|name: Seq<char>| a.dom().contains(name) implies a[name] == b[name] by {
        let i = place(more, name);
        assert(a[name] == more[i].data@);
        if i != at {
            assert(more[i] == objects[i]);
            assert(contents(objects)[objects[i].hash@] == objects[i].data@);
        }
    }
    assert(a =~= b);
}

/// Among the names of objects, a name begins with no other than itself.
pub proof fn lemma_whole_name_matches_itself(name: Seq<char>, other: Seq<char>)
    requires
        is_object_name(name),
        is_object_name(other),
    ensures
        name_matches(other, name) <==> other == name,
{
    assert forall|i: int| 0 <= i < name.len() implies '\0' <= #[trigger] name[i] <= '\u{7f}' by {
        assert(is_hex_char(name[i]));
    }
    assert forall|i: int| 0 <= i < other.len() implies '\0' <= #[trigger] other[i]
        <= '\u{7f}' by {
        assert(is_hex_char(other[i]));
    }
    vstd::utf8::is_ascii_chars_encode_utf8(name);
    vstd::utf8::is_ascii_chars_encode_utf8(other);
    let a = encode_utf8(name);
    let b = encode_utf8(other);
    assert(b.take(b.len() as int) =~= b);
    if name_matches(other, name) {
        lemma_bytes_decide_text(name, other);
    }
}

/// Whether an object asked for by `prefix` can be kept in the directory
/// `dir`: the prefix begins with two hexadecimal digits, and they are the
/// name of the directory.
pub open spec fn is_directory_of(dir: Seq<char>, prefix: Seq<char>) -> bool {
    &&& prefix.len() >= 2
    &&& is_hex_char(prefix[0])
    &&& is_hex_char(prefix[1])
    &&& dir == prefix.take(2)
}

/// The part of a store that is kept in the directory of a prefix: what is
/// kept under the names that begin with the first two characters of the
/// prefix. It is empty where no directory is that of the prefix.
pub open spec fn directory_part(store: Map<Seq<char>, Seq<u8>>, prefix: Seq<char>) -> Map<
    Seq<char>,
    Seq<u8>,
> {
    store.restrict(
        Set::new(|name: Seq<char>| is_directory_of(name.take(2), prefix)),
    )
}

/// The name of an object that begins with a prefix of two characters or
/// more begins with the first two characters of the prefix, and these are
/// hexadecimal digits: the object is kept in the directory of the prefix.
pub proof fn lemma_match_lies_in_directory(name: Seq<char>, prefix: Seq<char>)
    requires
        is_object_name(name),
        name_matches(name, prefix),
        prefix.len() >= 2,
    ensures
        is_directory_of(name.take(2), prefix),
{
    assert forall|i: int| 0 <= i < name.len() implies '\0' <= #[trigger] name[i] <= '\u{7f}' by {
        assert(is_hex_char(name[i]));
    }
    vstd::utf8::is_ascii_chars_encode_utf8(name);
    let nb = encode_utf8(name);
    let pb = encode_utf8(prefix);
    let rest = prefix.drop_first();
    let rb = encode_utf8(rest);
    vstd::utf8::char_is_scalar(prefix[0]);
    vstd::utf8::char_is_scalar(rest[0]);
    assert(pb == vstd::utf8::encode_scalar(prefix[0] as u32) + rb);
    assert(rb == vstd::utf8::encode_scalar(rest[0] as u32) + encode_utf8(rest.drop_first()));
    assert(pb.len() >= 1);
    assert(rb.len() >= 1);
    assert(pb[0] == nb.take(pb.len() as int)[0]);
    assert(nb[0] == name[0] as u8);
    assert(is_hex_char(name[0]) && is_hex_char(name[1]));
    lemma_first_ascii(prefix);
    assert(pb.drop_first() == rb);
    assert(rb[0] == pb[1]);
    assert(pb[1] == nb.take(pb.len() as int)[1]);
    assert(nb[1] == name[1] as u8);
    lemma_first_ascii(rest);
    assert(prefix[0] as int == name[0] as int);
    assert(prefix[1] as int == name[1] as int);
    assert(prefix[1] == rest[0]);
    assert(prefix[0] == name[0]);
    assert(prefix[1] == name[1]);
    assert(name.take(2) =~= prefix.take(2));
}

/// To read an object it is enough to have the directory of the prefix at
/// hand: asking the part of a well-formed store that is kept there gives
/// what asking the whole store gives.
pub proof fn lemma_directory_suffices(store: Map<Seq<char>, Seq<u8>>, prefix: Seq<char>)
    requires
        store_well_formed(store),
    ensures
        stored_object(directory_part(store, prefix), prefix) == stored_object(store, prefix),
{
    let part = directory_part(store, prefix);
    if prefix.len() >= MIN_HASH_PREFIX {
        assert forall|n: Seq<char>| matching(part, prefix).contains(n) <==> matching(
            store,
            prefix,
        ).contains(n) by {
            if matching(store, prefix).contains(n) {
                lemma_match_lies_in_directory(n, prefix);
            }
        }
        assert(matching(part, prefix) =~= matching(store, prefix));
        if let Ok(name) = find(store, prefix) {
            assert(matching(store, prefix).contains(name));
            assert(part[name] == store[name]);
        }
    }
}

/// What is kept can be read: where a well-formed store keeps the canonical
/// bytes of an object under their name, asking for the object by its whole
/// name gives the object, with the same content, entries or text.
pub proof fn lemma_read_stored(store: Map<Seq<char>, Seq<u8>>, object: Object)
    requires
        store_well_formed(store),
        object.well_formed(),
        readable(store, object.encoding()),
    ensures
        stored_object(store, name_of(object.encoding())) == Ok::<Object, Error>(object),
{
    let bytes = object.encoding();
    let name = name_of(bytes);
    let found = matching(store, name);
    lemma_whole_name_matches_itself(name, name);
    assert(found.contains(name));
    assert forall|n: Seq<char>| found.contains(n) implies n == name by {
        lemma_whole_name_matches_itself(name, n);
    }
    assert(found.choose() == name);
    assert(find(store, name) == Ok::<Seq<char>, HashFault>(name));
    lemma_decoding_of_encoding(object);
}

/// What was kept is read back: after an object was kept in a well-formed
/// store, asking for it by its whole name gives the object, with the same
/// content, entries or text.
pub proof fn lemma_read_after_write(
    before: Map<Seq<char>, Seq<u8>>,
    object: Object,
    after: Map<Seq<char>, Seq<u8>>,
)
    requires
        store_well_formed(before),
        object.well_formed(),
        kept(before, object.encoding(), after),
    ensures
        store_well_formed(after),
        stored_object(after, name_of(object.encoding())) == Ok::<Object, Error>(object),
{
    lemma_read_stored(after, object);
}

/// The tree that was built for a directory is read back: where no name in
/// the directory holds a NUL and every digest in the tree has twenty bytes,
/// asking a well-formed store that keeps the tree for it by its whole name
/// gives the entries of the directory, in the order of their names.
pub proof fn lemma_read_tree(store: Map<Seq<char>, Seq<u8>>, entries: Seq<DirEntry>)
    requires
        store_well_formed(store),
        readable(store, tree_bytes(entries)),
        forall|k: int|
            0 <= k < tree_entries(entries).len() ==> (#[trigger] tree_entries(entries)[k]).hash.len()
                == HASH_BYTES_LENGTH,
        forall|i: int| 0 <= i < entries.len() ==> has_no_nul((#[trigger] entries[i]).name@),
    ensures
        stored_object(store, name_of(tree_bytes(entries))) == Ok::<Object, Error>(
            Object::Tree(tree_entries(entries)),
        ),
{
    let tree = tree_entries(entries);
    assert forall|k: int| 0 <= k < tree.len() implies (#[trigger] tree[k]).well_formed() by {
        lemma_tree_entry_comes_from_entry(entries, k);
        let i = choose|i: int|
            0 <= i < entries.len() && tree[k] == line_of(#[trigger] entries[i]);
        assert(tree[k].path == entries[i].name@);
    }
    lemma_read_stored(store, Object::Tree(tree));
}

/// Keeping is deterministic: the name of an object depends on the object
/// alone, so keeping it a second time gives the same name and leaves the
/// store as the first time left it.
pub proof fn lemma_write_twice(
    before: Map<Seq<char>, Seq<u8>>,
    bytes: Seq<u8>,
    once: Map<Seq<char>, Seq<u8>>,
    twice: Map<Seq<char>, Seq<u8>>,
)
    requires
        kept(before, bytes, once),
        kept(once, bytes, twice),
    ensures
        twice == once,
        once.dom().contains(name_of(bytes)),
{
    assert(twice =~= once);
}

/// A prefix of fewer than six characters names nothing, whatever the store
/// holds, and so even where a longer prefix would name an object.
pub proof fn lemma_short_prefix_is_refused(store: Map<Seq<char>, Seq<u8>>, prefix: Seq<char>)
    requires
        prefix.len() < MIN_HASH_PREFIX,
    ensures
        stored_object(store, prefix) == Err::<Object, Error>(
            Error::InvalidHash(HashFault::TooShort),
        ),
{
}

/// The store of loose objects.
#[derive(Debug, Clone)]
pub struct FsUtils {
    objects: Vec<LooseObject>,
}

impl View for FsUtils {
    type V = Map<Seq<char>, Seq<u8>>;

    /// What the store keeps under each name.
    open spec fn view(&self) -> Map<Seq<char>, Seq<u8>> {
        contents(self.stored())
    }
}

impl FsUtils {
    /// The objects of the store, in the order in which their names came.
    pub closed spec fn stored(&self) -> Seq<LooseObject> {
        self.objects@
    }

    /// Whether every object is kept under the name of an object, and none
    /// under the same name as another.
    pub open spec fn well_formed(&self) -> bool {
        well_named(self.stored())
    }

    /// Every name under which a well-formed store keeps something is the
    /// name of an object.
    pub proof fn lemma_names(&self)
        requires
            self.well_formed(),
        ensures
            store_well_formed(self@),
    {
        lemma_contents(self.stored());
    }

    /// A store that holds nothing yet.
    pub fn init_dir() -> (store: Self)
        ensures
            store.well_formed(),
            store@ == Map::<Seq<char>, Seq<u8>>::empty(),
            store.stored().len() == 0,
    {
        let store = FsUtils { objects: Vec::new() };
        assert(store@ =~= Map::<Seq<char>, Seq<u8>>::empty());
        store
    }

    /// The objects of the store.
    pub fn objects(&self) -> (objects: &Vec<LooseObject>)
        ensures
            objects@ == self.stored(),
    {
        &self.objects
    }

    /// Hands out the objects of the store and leaves the store empty, so
    /// that what was handed out can be written down and let go.
    pub fn take_objects(&mut self) -> (objects: Vec<LooseObject>)
        ensures
            objects@ == old(self).stored(),
            final(self).stored().len() == 0,
            final(self).well_formed(),
            final(self)@ == Map::<Seq<char>, Seq<u8>>::empty(),
    {
        let mut objects: Vec<LooseObject> = Vec::new();
        std::mem::swap(&mut self.objects, &mut objects);
        assert(self@ =~= Map::<Seq<char>, Seq<u8>>::empty());
        objects
    }

    /// The header of an object of the given tag and content: the tag, a
    /// space, the number of bytes of the content in decimal, and a NUL.
    pub fn get_header(object_type: &str, content_bytes: &[u8]) -> (bytes: Vec<u8>)
        ensures
            bytes@ == header(encode_utf8(object_type@), content_bytes@.len()),
    {
        let mut bytes: Vec<u8> = Vec::new();
        extend(&mut bytes, object_type.as_bytes());
        bytes.push(32u8);
        let digits = to_decimal(content_bytes.len());
        extend(&mut bytes, digits.as_slice());
        bytes.push(0u8);
        bytes
    }

    /// Whether `name` can name an object: forty lowercase hexadecimal
    /// digits.
    pub fn is_name(name: &str) -> (yes: bool)
        ensures
            yes == is_object_name(name@),
    {
        if !name.is_ascii() {
            proof {
                if is_object_name(name@) {
                    assert forall|i: int| 0 <= i < name@.len() implies '\0' <= #[trigger] name@[i]
                        <= '\u{7f}' by {
                        assert(is_hex_char(name@[i]));
                    }
                }
            }
            return false;
        }
        let bytes = name.as_bytes();
        proof {
            vstd::utf8::is_ascii_chars_encode_utf8(name@);
        }
        if bytes.len() != HASH_HEX_LENGTH {
            return false;
        }
        let mut i: usize = 0;
        while i < bytes.len()
            invariant
                i <= bytes@.len(),
                bytes@.len() == name@.len(),
                forall|j: int| 0 <= j < name@.len() ==> name@[j] as u8 == #[trigger] bytes@[j],
                forall|j: int| 0 <= j < name@.len() ==> '\0' <= #[trigger] name@[j] <= '\u{7f}',
                forall|j: int| 0 <= j < i ==> is_hex_char(#[trigger] name@[j]),
            decreases bytes@.len() - i,
        {
            let b = bytes[i];
            let digit = (48 <= b && b <= 57) || (97 <= b && b <= 102);
            proof {
                let c = name@[i as int];
                assert(c as u8 == bytes@[i as int]);
                assert('\0' <= c <= '\u{7f}');
                assert(digit == is_hex_char(c));
            }
            if !digit {
                return false;
            }
            i = i + 1;
        }
        true
    }

    /// Where an object is kept below the directory of the objects: a
    /// directory named by the first two characters of its name, and in it a
    /// file named by the other thirty-eight. `None` for a text that cannot
    /// name an object.
    pub fn object_path(name: &str) -> (path: Option<(String, String)>)
        ensures
            match path {
                Some((dir, file)) => is_object_name(name@) && dir@ == name@.take(2) && file@
                    == name@.skip(2),
                None => !is_object_name(name@),
            },
    {
        if !Self::is_name(name) {
            return None;
        }
        proof {
            assert forall|i: int| 0 <= i < name@.len() implies '\0' <= #[trigger] name@[i]
                <= '\u{7f}' by {
                assert(is_hex_char(name@[i]));
            }
        }
        let dir = name.substring_ascii(0, 2);
        let file = name.substring_ascii(2, HASH_HEX_LENGTH);
        Some((dir.to_owned(), file.to_owned()))
    }

    /// The directory in which an object asked for by `hash` is kept: the
    /// first two characters of `hash`. There is none where `hash` does not
    /// begin with two hexadecimal digits; no object can be asked for by
    /// such a text.
    pub fn object_directory(hash: &str) -> (dir: Option<String>)
        ensures
            match dir {
                Some(name) => is_directory_of(name@, hash@),
                None => forall|name: Seq<char>| !is_directory_of(name, hash@),
            },
    {
        if hash.unicode_len() < 2 {
            return None;
        }
        let first = hash.get_char(0);
        let second = hash.get_char(1);
        if !Self::is_hex(first) || !Self::is_hex(second) {
            return None;
        }
        Some(hash.substring_char(0, 2).to_owned())
    }

    /// Whether `c` is one of `0` to `9` or `a` to `f`.
    pub fn is_hex(c: char) -> (yes: bool)
        ensures
            yes == is_hex_char(c),
    {
        ('0' <= c && c <= '9') || ('a' <= c && c <= 'f')
    }

    /// Whether an entry of this name becomes an entry of a tree: every name
    /// but that of the store's own directory.
    pub fn is_listed(name: &str) -> (listed: bool)
        ensures
            listed == (name@ != GIT_BASE_DIR@),
    {
        !same_text(name, GIT_BASE_DIR)
    }

    /// The place of the object named `name`, if the store holds one.
    fn find_name(&self, name: &str) -> (at: Option<usize>)
        ensures
            match at {
                Some(i) => i < self.stored().len() && self.stored()[i as int].hash@ == name@,
                None => !holds(self.stored(), name@),
            },
    {
        let mut i: usize = 0;
        while i < self.objects.len()
            invariant
                i <= self.objects@.len(),
                forall|j: int| 0 <= j < i ==> (#[trigger] self.objects@[j]).hash@ != name@,
            decreases self.objects@.len() - i,
        {
            if same_text(self.objects[i].hash.as_str(), name) {
                return Some(i);
            }
            i = i + 1;
        }
        None
    }

    /// Keeps `data` under `name`, in place of what was kept under it before.
    /// A text that cannot name an object is refused: the store stays as it
    /// is, and the answer is `false`.
    pub fn add_object(&mut self, name: String, data: Vec<u8>) -> (added: bool)
        requires
            old(self).well_formed(),
        ensures
            final(self).well_formed(),
            added == is_object_name(name@),
            added ==> final(self)@ == old(self)@.insert(name@, data@),
            !added ==> final(self)@ == old(self)@,
    {
        if !Self::is_name(name.as_str()) {
            return false;
        }
        let at = self.find_name(name.as_str());
        let object = LooseObject { hash: name, data: data };
        match at {
            Some(i) => {
                proof {
                    lemma_contents_update(self.objects@, i as int, object);
                }
                self.objects[i] = object;
            },
            None => {
                proof {
                    lemma_contents_push(self.objects@, object);
                }
                self.objects.push(object);
            },
        }
        true
    }

    /// Keeps canonical bytes: compresses them and keeps the stream under
    /// their name. Returns their raw digest. Succeeds exactly where the
    /// bytes deflate; otherwise fails with `Error::Io` and leaves the store
    /// as it is.
    pub fn write_bytes(&mut self, bytes: &[u8]) -> (res: Result<Vec<u8>, Error>)
        requires
            old(self).well_formed(),
        ensures
            final(self).well_formed(),
            (res is Ok) == zlib_deflate(bytes@).is_some(),
            match res {
                Ok(hash) => hash@ == sha1_digest(bytes@) && kept(old(self)@, bytes@, final(self)@),
                Err(e) => e == Error::Io && final(self)@ == old(self)@,
            },
    {
        let hash = create_hash(bytes);
        let name = to_hex(hash.as_slice());
        proof {
            lemma_hex_chars_shape(hash@);
        }
        match Compressor::compress(bytes) {
            Ok(stream) => {
                let added = self.add_object(name, stream);
                assert(added);
                Ok(hash)
            },
            Err(e) => Err(e),
        }
    }

    /// Keeps the object of the given tag and payload, whatever the payload
    /// holds: its header and the payload are hashed, compressed and kept.
    /// Returns the raw digest. Succeeds exactly where the header and the
    /// payload together deflate; otherwise fails with `Error::Io` and leaves
    /// the store as it is.
    pub fn write_raw_object(&mut self, object_type: &str, object_content: &[u8]) -> (res: Result<
        Vec<u8>,
        Error,
    >)
        requires
            old(self).well_formed(),
        ensures
            final(self).well_formed(),
            (res is Ok) == zlib_deflate(
                header(encode_utf8(object_type@), object_content@.len()) + object_content@,
            ).is_some(),
            match res {
                Ok(hash) => {
                    let bytes = header(encode_utf8(object_type@), object_content@.len())
                        + object_content@;
                    hash@ == sha1_digest(bytes) && kept(old(self)@, bytes, final(self)@)
                },
                Err(e) => e == Error::Io && final(self)@ == old(self)@,
            },
    {
        let mut bytes = Self::get_header(object_type, object_content);
        extend(&mut bytes, object_content);
        self.write_bytes(bytes.as_slice())
    }

    /// Keeps an object: its canonical bytes are hashed, compressed and kept
    /// under the digest in hexadecimal, which is returned. Keeping the same
    /// object again gives the same name and changes nothing. Succeeds
    /// exactly where the canonical bytes deflate, whatever the store holds;
    /// otherwise fails with `Error::Io` and leaves the store as it is.
    pub fn write_object(&mut self, object: &GitObject) -> (res: Result<String, Error>)
        requires
            old(self).well_formed(),
        ensures
            final(self).well_formed(),
            (res is Ok) == zlib_deflate(object@.encoding()).is_some(),
            match res {
                Ok(name) => name@ == name_of(object@.encoding()) && kept(
                    old(self)@,
                    object@.encoding(),
                    final(self)@,
                ),
                Err(e) => e == Error::Io && final(self)@ == old(self)@,
            },
    {
        let bytes = object.identity_bytes();
        match self.write_bytes(bytes.as_slice()) {
            Ok(hash) => Ok(to_hex(hash.as_slice())),
            Err(e) => Err(e),
        }
    }

    /// The place of the one object whose name begins with `prefix`.
    fn find_prefix(&self, prefix: &str) -> (res: Result<usize, HashFault>)
        requires
            self.well_formed(),
        ensures
            match res {
                Ok(at) => at < self.stored().len() && find(self@, prefix@) == Ok::<
                    Seq<char>,
                    HashFault,
                >(self.stored()[at as int].hash@),
                Err(fault) => find(self@, prefix@) == Err::<Seq<char>, HashFault>(fault),
            },
    {
        if prefix.unicode_len() < MIN_HASH_PREFIX {
            return Err(HashFault::TooShort);
        }
        let wanted = prefix.as_bytes();
        let ghost found = matching(self@, prefix@);
        proof {
            lemma_contents(self.objects@);
        }
        let mut at: Option<usize> = None;
        let mut i: usize = 0;
        while i < self.objects.len()
            invariant
                i <= self.objects@.len(),
                self.well_formed(),
                wanted@ == encode_utf8(prefix@),
                found == matching(self@, prefix@),
                prefix@.len() >= MIN_HASH_PREFIX,
                match at {
                    Some(k) => k < i && name_matches(self.objects@[k as int].hash@, prefix@)
                        && forall|j: int|
                        0 <= j < i && j != k ==> !name_matches(
                            (#[trigger] self.objects@[j]).hash@,
                            prefix@,
                        ),
                    None => forall|j: int|
                        0 <= j < i ==> !name_matches((#[trigger] self.objects@[j]).hash@, prefix@),
                },
            decreases self.objects@.len() - i,
        {
            if has_prefix(self.objects[i].hash.as_str().as_bytes(), wanted) {
                match at {
                    Some(k) => {
                        proof {
                            lemma_contents(self.objects@);
                            let a = self.objects@[k as int].hash@;
                            let b = self.objects@[i as int].hash@;
                            assert(found.contains(a));
                            assert(found.contains(b));
                            assert(a != b);
                        }
                        return Err(HashFault::Ambiguous);
                    },
                    None => {
                        at = Some(i);
                    },
                }
            }
            i = i + 1;
        }
        proof {
            lemma_contents(self.objects@);
            assert forall|n: Seq<char>| found.contains(n) implies match at {
                Some(k) => n == self.objects@[k as int].hash@,
                None => false,
            } by {
                let p = place(self.objects@, n);
                assert(self.objects@[p].hash@ == n);
            }
            if let Some(k) = at {
                assert(found.contains(self.objects@[k as int].hash@));
            }
        }
        match at {
            Some(k) => Ok(k),
            None => Err(HashFault::NotFound),
        }
    }

    /// Reads the one object whose name begins with `hash`. A prefix of fewer
    /// than six characters is refused, whatever the store holds. Otherwise
    /// the name must be the only one that begins with the prefix; what is
    /// kept under it is decompressed and read. Fails with
    /// `Error::InvalidHash` and the fault where the prefix is too short,
    /// begins no name, or begins more than one; with `Error::CorruptStream`
    /// where the stream is not valid; and as `GitObject::decode` does for
    /// the bytes.
    pub fn read_object_with_hash(&self, hash: &str) -> (res: Result<GitObject, Error>)
        requires
            self.well_formed(),
        ensures
            reads_as(res, stored_object(self@, hash@)),
            hash@.len() < MIN_HASH_PREFIX ==> res is Err && res->Err_0 == Error::InvalidHash(
                HashFault::TooShort,
            ),
    {
        match self.find_prefix(hash) {
            Err(fault) => Err(Error::InvalidHash(fault)),
            Ok(at) => {
                proof {
                    lemma_contents(self.objects@);
                }
                match Compressor::decompress(self.objects[at].data.as_slice()) {
                    Err(e) => Err(e),
                    Ok(bytes) => GitObject::decode(bytes.as_slice()),
                }
            },
        }
    }

    /// Hands the entries of a directory to a walk, in the order in which
    /// they were listed: each file with its content, and each folder opened,
    /// followed by its own entries, and closed. Gives the walk back where
    /// every object deflates.
    fn walk_entries(&mut self, walk: TreeWalk, entries: &Vec<DirEntry>) -> (res: Result<
        TreeWalk,
        Error,
    >)
        requires
            old(self).well_formed(),
            walk@.len() >= 1,
        ensures
            final(self).well_formed(),
            old(self)@.dom().subset_of(final(self)@.dom()),
            final(self)@ == store_with_entries(old(self)@, entries@),
            (res is Ok) == entries_deflate(entries@),
            match res {
                Ok(after) => {
                    &&& after@ == with_lines(walk@, lines_of(entries@))
                    &&& forall|k: int|
                        0 <= k < lines_of(entries@).len() ==> (#[trigger] lines_of(
                            entries@,
                        )[k]).hash.len() == HASH_BYTES_LENGTH
                },
                Err(e) => e == Error::Io,
            },
        decreases entries,
    {
        let ghost start = walk@;
        let mut walk = walk;
        let mut i: usize = 0;
        proof {
            assert(entries@.take(0) =~= Seq::<DirEntry>::empty());
            assert(with_lines(start, Seq::<TreeEntry>::empty()) =~= start);
        }
        while i < entries.len()
            invariant
                i <= entries@.len(),
                start.len() >= 1,
                self.well_formed(),
                old(self)@.dom().subset_of(self@.dom()),
                walk@ == with_lines(start, lines_of(entries@.take(i as int))),
                entries_deflate(entries@.take(i as int)),
                self@ == store_with_entries(old(self)@, entries@.take(i as int)),
                forall|k: int|
                    0 <= k < lines_of(entries@.take(i as int)).len() ==> (#[trigger] lines_of(
                        entries@.take(i as int),
                    )[k]).hash.len() == HASH_BYTES_LENGTH,
            decreases entries@.len() - i,
        {
            let entry = &entries[i];
            let ghost front = entries@.take(i as int);
            let ghost upto = entries@.take(i + 1);
            let ghost before = lines_of(front);
            let ghost open_before = walk@;
            let ghost store_before = self@;
            proof {
                assert(upto.drop_last() =~= front);
                assert(upto.last() == entries@[i as int]);
                assert(*entry == entries@[i as int]);
            }
            let kept = match &entry.node {
                Node::File(content) => walk.add_file(self, entry.name.clone(), content.as_slice()),
                Node::Folder(children) => {
                    if walk.open_folder(entry.name.clone()) {
                        proof {
                            assert(decreases_to!(entries => entries@[i as int]));
                        }
                        match self.walk_entries(walk, children) {
                            Ok(inner) => {
                                walk = inner;
                                proof {
                                    assert(walk@ =~= open_before.push(
                                        Pending { name: entry.name@, lines: lines_of(children@) },
                                    ));
                                    assert(walk@.drop_last() =~= open_before);
                                }
                                walk.close_folder(self)
                            },
                            Err(e) => {
                                proof {
                                    assert(self@ == store_with_node(store_before, entry.node));
                                    assert(!node_deflates(entry.node));
                                    assert(store_with_entries(old(self)@, upto) == self@);
                                    assert(!entries_deflate(upto));
                                    lemma_keeping_ends(old(self)@, entries@, i + 1);
                                }
                                return Err(e);
                            },
                        }
                    } else {
                        Ok(())
                    }
                },
            };
            proof {
                if entry.name@ == GIT_BASE_DIR@ {
                    assert(lines_of(upto) == before);
                    assert(store_with_entries(old(self)@, upto) == store_before);
                    assert(entries_deflate(upto));
                } else {
                    assert(self@ == store_with_node(store_before, entry.node));
                    assert((kept is Ok) == node_deflates(entry.node));
                    assert(store_with_entries(old(self)@, upto) == self@);
                    assert(entries_deflate(upto) == node_deflates(entry.node));
                    assert(lines_of(upto) == before.push(line_of(*entry)));
                    if kept is Ok {
                        assert(walk@ == with_line(open_before, line_of(*entry)));
                        assert(walk@ =~= with_lines(start, lines_of(upto)));
                        assert(line_of(*entry).hash.len() == HASH_BYTES_LENGTH);
                    }
                }
            }
            match kept {
                Ok(()) => {},
                Err(e) => {
                    proof {
                        lemma_keeping_ends(old(self)@, entries@, i + 1);
                    }
                    return Err(e);
                },
            }
            i = i + 1;
        }
        proof {
            assert(entries@.take(i as int) =~= entries@);
        }
        Ok(walk)
    }

    /// Builds the tree of a directory and keeps it with all that is below
    /// it. Each file is kept as a blob and each folder as the tree of its
    /// entries, before the tree that names them. An entry under the name of
    /// the store's own directory is skipped, at every depth. The entries of
    /// each tree are in the order of their names, whatever the order in
    /// which they were listed. Returns the raw digest of the tree. Succeeds
    /// exactly where every object of the walk deflates; otherwise fails with
    /// `Error::Io` at the first that does not, and what was kept until then
    /// stays.
    pub fn write_tree(&mut self, entries: &Vec<DirEntry>) -> (res: Result<Vec<u8>, Error>)
        requires
            old(self).well_formed(),
        ensures
            final(self).well_formed(),
            old(self)@.dom().subset_of(final(self)@.dom()),
            final(self)@ == store_with_tree(old(self)@, entries@),
            (res is Ok) == tree_deflates(entries@),
            match res {
                Ok(hash) => {
                    &&& hash@ == sha1_digest(tree_bytes(entries@))
                    &&& readable(final(self)@, tree_bytes(entries@))
                    &&& forall|k: int|
                        0 <= k < tree_entries(entries@).len() ==> (#[trigger] tree_entries(
                            entries@,
                        )[k]).hash.len() == HASH_BYTES_LENGTH
                },
                Err(e) => e == Error::Io,
            },
    {
        let walk = TreeWalk::new();
        let ghost start = walk@;
        match self.walk_entries(walk, entries) {
            Ok(walk) => {
                proof {
                    let given = lines_of(entries@);
                    assert(walk@[0].lines =~= given);
                    assert forall|k: int| 0 <= k < tree_entries(entries@).len() implies (
                    #[trigger] tree_entries(entries@)[k]).hash.len() == HASH_BYTES_LENGTH by {
                        lemma_sorted_entry_is_given(given, k);
                    }
                }
                walk.finish(self)
            },
            Err(e) => Err(e),
        }
    }
}

} // verus!
