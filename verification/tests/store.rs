use git_objects::cli_commands::CliCommand;
use git_objects::commands::{
    execute_cat_file_command, execute_commit_tree_command, execute_hash_object_command,
    execute_list_tree_command, execute_write_tree_command,
};
use git_objects::compressor::Compressor;
use git_objects::error::{Error, HashFault};
use git_objects::fs_utils::{
    FsUtils, GIT_BASE_DIR, GIT_HEAD_CONTENT, GIT_HEAD_FILE, GIT_OBJECTS_DIR, GIT_REFS_DIR,
};
use git_objects::git_object::tree_line::{Mode, TreeLine};
use git_objects::git_object::tree_lines::TreeLines;
use git_objects::git_object::GitObject;
use git_objects::hasher::to_hex;
use git_objects::tree_walk::TreeWalk;
use git_objects::work_tree::{DirEntry, Node};

const HI: &str = "45b983be36b73c0788dc9cbcb76cbb80fc7bb057";

fn file(name: &str, content: &[u8]) -> DirEntry {
    DirEntry { name: name.to_string(), node: Node::File(content.to_vec()) }
}

fn folder(name: &str, entries: Vec<DirEntry>) -> DirEntry {
    DirEntry { name: name.to_string(), node: Node::Folder(entries) }
}

fn blob_content(object: GitObject) -> Vec<u8> {
    match object {
        GitObject::Blob(content) => content,
        other => panic!("not a blob: {:?}", other),
    }
}

fn tree_lines(object: GitObject) -> Vec<TreeLine> {
    match object {
        GitObject::Tree(lines) => lines.0,
        other => panic!("not a tree: {:?}", other),
    }
}

#[test]
fn a_new_store_holds_nothing() {
    let store = FsUtils::init_dir();
    assert!(store.objects().is_empty());
    assert_eq!(
        store.read_object_with_hash(HI).err(),
        Some(Error::InvalidHash(HashFault::NotFound))
    );
}

#[test]
fn end_to_end_scenario() {
    let mut store = FsUtils::init_dir();
    let name = execute_hash_object_command(&mut store, b"hi\n").unwrap();
    assert_eq!(name, HI);
    assert_eq!(execute_cat_file_command(&store, &name).unwrap(), b"hi\n".to_vec());
}

#[test]
fn write_object_keeps_the_compressed_canonical_bytes() {
    let mut store = FsUtils::init_dir();
    let name = store.write_object(&GitObject::Blob(b"hi\n".to_vec())).unwrap();
    assert_eq!(name, HI);
    assert_eq!(store.objects().len(), 1);
    assert_eq!(store.objects()[0].hash, HI);
    assert_eq!(
        Compressor::decompress(&store.objects()[0].data).unwrap(),
        b"blob 3\0hi\n".to_vec()
    );
}

#[test]
fn round_trip_identity() {
    let contents: Vec<Vec<u8>> = vec![
        vec![],
        b"hi\n".to_vec(),
        b"line\r\nline\n".to_vec(),
        vec![0, 0, 32, 0, 255, 254],
        (0u8..=255).collect(),
    ];
    let mut store = FsUtils::init_dir();
    for content in contents {
        let name = store.write_object(&GitObject::Blob(content.clone())).unwrap();
        let read = store.read_object_with_hash(&name).unwrap();
        assert_eq!(blob_content(read), content);
    }
    assert_eq!(store.objects().len(), 5);
}

#[test]
fn round_trip_of_a_tree() {
    let mut store = FsUtils::init_dir();
    let lines = vec![
        TreeLine::new(Mode::File, "a".to_string(), vec![1; 20]),
        TreeLine::new(Mode::Folder, "b".to_string(), vec![2; 20]),
    ];
    let name = store.write_object(&GitObject::Tree(TreeLines::new(lines))).unwrap();
    let read = tree_lines(store.read_object_with_hash(&name).unwrap());
    assert_eq!(read.len(), 2);
    assert_eq!(read[0].path, "a");
    assert_eq!(read[1].mode, Mode::Folder);
    assert_eq!(read[1].hash, vec![2; 20]);
}

#[test]
fn hash_determinism() {
    let mut store = FsUtils::init_dir();
    let blob = GitObject::Blob(b"same".to_vec());
    let first = store.write_object(&blob).unwrap();
    let data = store.objects()[0].data.clone();
    let second = store.write_object(&blob).unwrap();
    assert_eq!(first, second);
    assert_eq!(store.objects().len(), 1);
    assert_eq!(store.objects()[0].data, data);
    let mut other = FsUtils::init_dir();
    assert_eq!(other.write_object(&GitObject::Blob(b"same".to_vec())).unwrap(), first);
}

#[test]
fn hash_sensitivity_to_order() {
    let a = TreeLine::new(Mode::File, "a".to_string(), vec![1; 20]);
    let b = TreeLine::new(Mode::File, "b".to_string(), vec![2; 20]);
    let mut store = FsUtils::init_dir();
    let ab = store
        .write_object(&GitObject::Tree(TreeLines::new(vec![a.clone(), b.clone()])))
        .unwrap();
    let ba = store.write_object(&GitObject::Tree(TreeLines::new(vec![b, a]))).unwrap();
    assert_ne!(ab, ba);
    assert_eq!(store.objects().len(), 2);
}

#[test]
fn the_kind_is_part_of_the_hash() {
    let mut store = FsUtils::init_dir();
    let blob = store.write_object(&GitObject::Blob(b"x".to_vec())).unwrap();
    let commit = store.write_object(&GitObject::Commit("x".to_string())).unwrap();
    assert_ne!(blob, commit);
}

#[test]
fn read_by_a_prefix() {
    let mut store = FsUtils::init_dir();
    store.write_object(&GitObject::Blob(b"hi\n".to_vec())).unwrap();
    store.write_object(&GitObject::Blob(b"other".to_vec())).unwrap();
    let read = store.read_object_with_hash(&HI[..6]).unwrap();
    assert_eq!(blob_content(read), b"hi\n".to_vec());
    let read = store.read_object_with_hash(&HI[..17]).unwrap();
    assert_eq!(blob_content(read), b"hi\n".to_vec());
}

#[test]
fn ambiguous_prefix_rejection() {
    let mut store = FsUtils::init_dir();
    store.write_object(&GitObject::Blob(b"hi\n".to_vec())).unwrap();
    for len in 0..6 {
        assert_eq!(
            store.read_object_with_hash(&HI[..len]).err(),
            Some(Error::InvalidHash(HashFault::TooShort))
        );
    }
    assert!(store.read_object_with_hash(&HI[..6]).is_ok());
}

#[test]
fn a_short_prefix_is_counted_in_characters() {
    let store = FsUtils::init_dir();
    assert_eq!(
        store.read_object_with_hash("ééé").err(),
        Some(Error::InvalidHash(HashFault::TooShort))
    );
    assert_eq!(
        store.read_object_with_hash("éééééé").err(),
        Some(Error::InvalidHash(HashFault::NotFound))
    );
}

#[test]
fn a_prefix_that_begins_no_name_is_not_found() {
    let mut store = FsUtils::init_dir();
    store.write_object(&GitObject::Blob(b"hi\n".to_vec())).unwrap();
    assert_eq!(
        store.read_object_with_hash("45b983be36b73c0788dc9cbcb76cbb80fc7bb058").err(),
        Some(Error::InvalidHash(HashFault::NotFound))
    );
    assert_eq!(
        store.read_object_with_hash("45b983be36b73c0788dc9cbcb76cbb80fc7bb0570").err(),
        Some(Error::InvalidHash(HashFault::NotFound))
    );
    assert_eq!(
        store.read_object_with_hash("45B983").err(),
        Some(Error::InvalidHash(HashFault::NotFound))
    );
}

#[test]
fn a_prefix_that_begins_two_names_is_ambiguous() {
    let mut store = FsUtils::init_dir();
    let stream = Compressor::compress(b"blob 1\0x").unwrap();
    let first = format!("abcdef{}", "0".repeat(34));
    let second = format!("abcdef{}", "1".repeat(34));
    assert!(store.add_object(first.clone(), stream.clone()));
    assert!(store.add_object(second, stream));
    assert_eq!(
        store.read_object_with_hash("abcdef").err(),
        Some(Error::InvalidHash(HashFault::Ambiguous))
    );
    assert_eq!(blob_content(store.read_object_with_hash("abcdef0").unwrap()), b"x".to_vec());
    assert_eq!(blob_content(store.read_object_with_hash(&first).unwrap()), b"x".to_vec());
}

#[test]
fn a_corrupt_stream_is_reported() {
    let mut store = FsUtils::init_dir();
    assert!(store.add_object("a".repeat(40), b"not compressed".to_vec()));
    assert_eq!(
        store.read_object_with_hash("aaaaaa").err(),
        Some(Error::CorruptStream)
    );
}

#[test]
fn stored_bytes_that_are_no_object_are_reported() {
    let mut store = FsUtils::init_dir();
    assert!(store.add_object("a".repeat(40), Compressor::compress(b"no header").unwrap()));
    assert!(store.add_object("b".repeat(40), Compressor::compress(b"tag 1\0x").unwrap()));
    assert!(store.add_object("c".repeat(40), Compressor::compress(b"tree 1\0x").unwrap()));
    assert!(store.add_object("d".repeat(40), Compressor::compress(b"blob1\0x").unwrap()));
    assert_eq!(store.read_object_with_hash("aaaaaa").err(), Some(Error::TruncatedHeader));
    assert_eq!(store.read_object_with_hash("bbbbbb").err(), Some(Error::UnknownObjectType));
    assert_eq!(store.read_object_with_hash("cccccc").err(), Some(Error::MalformedTree));
    assert_eq!(store.read_object_with_hash("dddddd").err(), Some(Error::TruncatedHeader));
}

#[test]
fn add_object_refuses_what_is_no_name() {
    let mut store = FsUtils::init_dir();
    assert!(!store.add_object("a".repeat(39), vec![1]));
    assert!(!store.add_object("a".repeat(41), vec![1]));
    assert!(!store.add_object("A".repeat(40), vec![1]));
    assert!(!store.add_object("g".repeat(40), vec![1]));
    assert!(!store.add_object("é".repeat(20), vec![1]));
    assert!(!store.add_object(String::new(), vec![1]));
    assert!(store.objects().is_empty());
    assert!(store.add_object("0123456789abcdef0123456789abcdef01234567".to_string(), vec![1]));
    assert_eq!(store.objects().len(), 1);
}

#[test]
fn add_object_replaces_what_was_kept_under_the_name() {
    let mut store = FsUtils::init_dir();
    assert!(store.add_object("a".repeat(40), vec![1]));
    assert!(store.add_object("b".repeat(40), vec![2]));
    assert!(store.add_object("a".repeat(40), vec![3]));
    assert_eq!(store.objects().len(), 2);
    assert_eq!(store.objects()[0].hash, "a".repeat(40));
    assert_eq!(store.objects()[0].data, vec![3]);
    assert_eq!(store.objects()[1].data, vec![2]);
}

#[test]
fn is_name_accepts_forty_lowercase_hexadecimal_digits() {
    assert!(FsUtils::is_name(HI));
    assert!(!FsUtils::is_name(&HI[..39]));
    assert!(!FsUtils::is_name(&HI.to_uppercase()));
    assert!(!FsUtils::is_name("45b983be36b73c0788dc9cbcb76cbb80fc7bb05/"));
    assert!(!FsUtils::is_name("45b983be36b73c0788dc9cbcb76cbb80fc7bb05:"));
    assert!(!FsUtils::is_name("45b983be36b73c0788dc9cbcb76cbb80fc7bb05`"));
    assert!(!FsUtils::is_name("45b983be36b73c0788dc9cbcb76cbb80fc7bb05g"));
}

#[test]
fn write_raw_object_returns_the_raw_hash() {
    let mut store = FsUtils::init_dir();
    let hash = store.write_raw_object("blob", b"hi\n").unwrap();
    assert_eq!(hash.len(), 20);
    assert_eq!(to_hex(&hash), HI);
    assert_eq!(store.objects()[0].hash, HI);
}

#[test]
fn write_bytes_keeps_them_under_their_hash() {
    let mut store = FsUtils::init_dir();
    let hash = store.write_bytes(b"blob 3\0hi\n").unwrap();
    assert_eq!(to_hex(&hash), HI);
    assert_eq!(blob_content(store.read_object_with_hash(HI).unwrap()), b"hi\n".to_vec());
}

#[test]
fn tree_ordering_invariant() {
    let entries = vec![
        file("b.txt", b"b\n"),
        file("a.txt", b"a\n"),
        folder("c", vec![file("inner.txt", b"c\n")]),
    ];
    let mut store = FsUtils::init_dir();
    let hash = store.write_tree(&entries).unwrap();
    assert_eq!(to_hex(&hash), "457b8bd0d49e9405c3b66be60613b98743281b02");
    let lines = tree_lines(store.read_object_with_hash(&to_hex(&hash)).unwrap());
    let names: Vec<&str> = lines.iter().map(|line| line.path.as_str()).collect();
    assert_eq!(names, vec!["a.txt", "b.txt", "c"]);
    assert_eq!(lines[0].mode, Mode::File);
    assert_eq!(lines[2].mode, Mode::Folder);
    assert_eq!(to_hex(&lines[0].hash), "78981922613b2afb6025042ff6bd878ac1994e85");
    assert_eq!(to_hex(&lines[1].hash), "61780798228d17af2d34fce4cfbdf35556832472");
    assert_eq!(to_hex(&lines[2].hash), "ef8ccbc0db26df8f22336ef699344e0c05844491");
    assert_eq!(store.objects().len(), 5);
}

#[test]
fn tree_does_not_depend_on_the_listing_order() {
    let one = vec![
        file("b.txt", b"b\n"),
        file("a.txt", b"a\n"),
        folder("c", vec![file("inner.txt", b"c\n")]),
    ];
    let other = vec![
        folder("c", vec![file("inner.txt", b"c\n")]),
        file("a.txt", b"a\n"),
        file("b.txt", b"b\n"),
    ];
    let mut store = FsUtils::init_dir();
    assert_eq!(store.write_tree(&one).unwrap(), store.write_tree(&other).unwrap());
}

#[test]
fn children_are_kept_before_the_tree_that_names_them() {
    let entries = vec![folder("c", vec![file("inner.txt", b"c\n")]), file("a.txt", b"a\n")];
    let mut store = FsUtils::init_dir();
    let root = to_hex(&store.write_tree(&entries).unwrap());
    let names: Vec<&str> = store.objects().iter().map(|o| o.hash.as_str()).collect();
    assert_eq!(
        names,
        vec![
            "f2ad6c76f0115a6ba5b00456a849810e7ec0af20",
            "ef8ccbc0db26df8f22336ef699344e0c05844491",
            "78981922613b2afb6025042ff6bd878ac1994e85",
            root.as_str(),
        ]
    );
}

#[test]
fn metadata_directory_exclusion() {
    let plain = vec![
        file("a.txt", b"a\n"),
        file("b.txt", b"b\n"),
        folder("c", vec![file("inner.txt", b"c\n")]),
    ];
    let with_meta = vec![
        folder(".git", vec![file("HEAD", b"ref: refs/heads/master\n")]),
        file("a.txt", b"a\n"),
        file("b.txt", b"b\n"),
        folder(
            "c",
            vec![folder(".git", vec![file("config", b"x")]), file("inner.txt", b"c\n")],
        ),
    ];
    let mut store = FsUtils::init_dir();
    let hash = store.write_tree(&with_meta).unwrap();
    assert_eq!(to_hex(&hash), "457b8bd0d49e9405c3b66be60613b98743281b02");
    assert_eq!(store.objects().len(), 5);
    for object in store.objects().iter() {
        let read = store.read_object_with_hash(&object.hash).unwrap();
        if let GitObject::Tree(lines) = read {
            assert!(lines.0.iter().all(|line| line.path != ".git"));
        }
    }
    let mut other = FsUtils::init_dir();
    assert_eq!(other.write_tree(&plain).unwrap(), hash);
}

#[test]
fn a_file_named_like_the_metadata_directory_is_skipped_too() {
    let mut store = FsUtils::init_dir();
    let hash = store.write_tree(&vec![file(".git", b"gitdir: elsewhere")]).unwrap();
    assert_eq!(to_hex(&hash), "4b825dc642cb6eb9a060e54bf8d69288fbee4904");
    assert_eq!(store.objects().len(), 1);
}

#[test]
fn an_empty_directory_gives_the_empty_tree() {
    let mut store = FsUtils::init_dir();
    let hash = store.write_tree(&vec![]).unwrap();
    assert_eq!(to_hex(&hash), "4b825dc642cb6eb9a060e54bf8d69288fbee4904");
    let lines = tree_lines(store.read_object_with_hash(&to_hex(&hash)).unwrap());
    assert!(lines.is_empty());
}

#[test]
fn identical_subtrees_are_kept_once() {
    let entries = vec![
        folder("one", vec![file("f", b"same")]),
        folder("two", vec![file("f", b"same")]),
    ];
    let mut store = FsUtils::init_dir();
    let hash = store.write_tree(&entries).unwrap();
    assert_eq!(store.objects().len(), 3);
    let lines = tree_lines(store.read_object_with_hash(&to_hex(&hash)).unwrap());
    assert_eq!(lines[0].hash, lines[1].hash);
}

#[test]
fn cat_file_refuses_what_is_no_blob() {
    let mut store = FsUtils::init_dir();
    let tree = to_hex(&store.write_tree(&vec![]).unwrap());
    assert_eq!(
        execute_cat_file_command(&store, &tree),
        Err(Error::InvalidHash(HashFault::WrongKind))
    );
    assert_eq!(
        execute_cat_file_command(&store, "abc"),
        Err(Error::InvalidHash(HashFault::TooShort))
    );
    assert_eq!(
        execute_cat_file_command(&store, "abcdef"),
        Err(Error::InvalidHash(HashFault::NotFound))
    );
}

#[test]
fn list_tree_gives_the_names_in_order() {
    let entries = vec![
        file("b.txt", b"b\n"),
        file("a.txt", b"a\n"),
        folder("c", vec![file("inner.txt", b"c\n")]),
    ];
    let mut store = FsUtils::init_dir();
    let name = execute_write_tree_command(&mut store, &entries).unwrap();
    assert_eq!(name, "457b8bd0d49e9405c3b66be60613b98743281b02");
    assert_eq!(
        execute_list_tree_command(&store, &name).unwrap(),
        vec!["a.txt".to_string(), "b.txt".to_string(), "c".to_string()]
    );
    assert_eq!(
        execute_list_tree_command(&store, "78981922613b").err(),
        Some(Error::InvalidHash(HashFault::WrongKind))
    );
    assert_eq!(
        execute_list_tree_command(&store, "7898").err(),
        Some(Error::InvalidHash(HashFault::TooShort))
    );
}

#[test]
fn commit_tree_keeps_a_commit_that_reads_back() {
    let mut store = FsUtils::init_dir();
    let name = execute_commit_tree_command(&mut store, "T", "P", "msg").unwrap();
    assert_eq!(name, "e76f2d09019a3a45e8da7ead178c77df5d6a266e");
    match store.read_object_with_hash(&name).unwrap() {
        GitObject::Commit(text) => {
            assert!(text.starts_with("tree T\nparent P\n"));
            assert!(text.ends_with("msg\n"));
            match GitObject::new_commit("T", "P", "msg") {
                GitObject::Commit(made) => assert_eq!(text, made),
                other => panic!("not a commit: {:?}", other),
            }
        }
        other => panic!("not a commit: {:?}", other),
    }
}

#[test]
fn commands_are_read_from_their_words() {
    assert_eq!(CliCommand::from_string("init"), CliCommand::Init);
    assert_eq!(CliCommand::from_string("cat-file"), CliCommand::CatFile);
    assert_eq!(CliCommand::from_string("hash-object"), CliCommand::HashObject);
    assert_eq!(CliCommand::from_string("ls-tree"), CliCommand::ListTree);
    assert_eq!(CliCommand::from_string("write-tree"), CliCommand::WriteTree);
    assert_eq!(CliCommand::from_string("commit-tree"), CliCommand::CommitTree);
}

#[test]
fn other_words_name_no_command() {
    assert_eq!(CliCommand::parse("status"), None);
    assert_eq!(CliCommand::parse(""), None);
    assert_eq!(CliCommand::parse("Init"), None);
    assert_eq!(CliCommand::parse("cat-file"), Some(CliCommand::CatFile));
}

#[test]
fn errors_describe_themselves() {
    assert_eq!(Error::MalformedTree.message(), "Invalid tree line");
    assert_eq!(Error::UnknownObjectType.message(), "Invalid object type");
    assert_eq!(
        Error::InvalidHash(HashFault::TooShort).message(),
        "Invalid hash: fewer than six characters"
    );
    assert_ne!(Error::Io.message(), Error::CorruptStream.message());
}

#[test]
fn object_path_splits_a_name_after_two_characters() {
    assert_eq!(
        FsUtils::object_path(HI),
        Some(("45".to_string(), "b983be36b73c0788dc9cbcb76cbb80fc7bb057".to_string()))
    );
    assert_eq!(FsUtils::object_path("45b983"), None);
    assert_eq!(FsUtils::object_path(&HI.to_uppercase()), None);
}

#[test]
fn every_name_but_that_of_the_store_is_listed() {
    assert!(!FsUtils::is_listed(".git"));
    assert!(FsUtils::is_listed(".gitignore"));
    assert!(FsUtils::is_listed("git"));
    assert!(FsUtils::is_listed(".GIT"));
    assert!(FsUtils::is_listed(""));
}

#[test]
fn the_layout_of_a_store() {
    assert_eq!(GIT_BASE_DIR, ".git");
    assert_eq!(GIT_OBJECTS_DIR, ".git/objects");
    assert_eq!(GIT_REFS_DIR, ".git/refs");
    assert_eq!(GIT_HEAD_FILE, ".git/HEAD");
    assert_eq!(GIT_HEAD_CONTENT, "ref: refs/heads/master\n");
}

fn walk_entries(walk: &mut TreeWalk, store: &mut FsUtils, entries: &[DirEntry]) {
    for entry in entries {
        match &entry.node {
            Node::File(content) => {
                walk.add_file(store, entry.name.clone(), content).unwrap();
            }
            Node::Folder(children) => {
                if walk.open_folder(entry.name.clone()) {
                    walk_entries(walk, store, children);
                    walk.close_folder(store).unwrap();
                }
            }
        }
    }
}

#[test]
fn a_walk_builds_the_same_tree_as_write_tree() {
    let entries = vec![
        folder(".git", vec![file("HEAD", b"ref: refs/heads/master\n")]),
        file("b.txt", b"b\n"),
        file("a.txt", b"a\n"),
        folder("c", vec![file("inner.txt", b"c\n"), file(".git", b"x")]),
    ];
    let mut store = FsUtils::init_dir();
    let mut walk = TreeWalk::new();
    assert_eq!(walk.depth(), 1);
    walk_entries(&mut walk, &mut store, &entries);
    assert_eq!(walk.depth(), 1);
    let hash = walk.finish(&mut store).unwrap();
    assert_eq!(to_hex(&hash), "457b8bd0d49e9405c3b66be60613b98743281b02");
    assert_eq!(store.objects().len(), 5);
    let mut other = FsUtils::init_dir();
    assert_eq!(other.write_tree(&entries).unwrap(), hash);
}

#[test]
fn a_walk_opens_and_closes_folders() {
    let mut store = FsUtils::init_dir();
    let mut walk = TreeWalk::new();
    assert!(!walk.open_folder(".git".to_string()));
    assert_eq!(walk.depth(), 1);
    assert!(walk.open_folder("sub".to_string()));
    assert_eq!(walk.depth(), 2);
    walk.add_file(&mut store, "inner.txt".to_string(), b"c\n").unwrap();
    assert_eq!(store.objects().len(), 1);
    walk.close_folder(&mut store).unwrap();
    assert_eq!(walk.depth(), 1);
    assert_eq!(store.objects().len(), 2);
    assert_eq!(store.objects()[1].hash, "ef8ccbc0db26df8f22336ef699344e0c05844491");
}

#[test]
fn a_walk_that_finds_nothing_gives_the_empty_tree() {
    let mut store = FsUtils::init_dir();
    let hash = TreeWalk::new().finish(&mut store).unwrap();
    assert_eq!(to_hex(&hash), "4b825dc642cb6eb9a060e54bf8d69288fbee4904");
}

#[test]
fn a_walk_passes_over_a_file_named_like_the_metadata_directory() {
    let mut store = FsUtils::init_dir();
    let mut walk = TreeWalk::new();
    assert_eq!(walk.add_file(&mut store, ".git".to_string(), b"gitdir: x"), Ok(()));
    assert!(store.objects().is_empty());
    let hash = walk.finish(&mut store).unwrap();
    assert_eq!(to_hex(&hash), "4b825dc642cb6eb9a060e54bf8d69288fbee4904");
}

#[test]
fn take_objects_hands_out_what_the_store_holds() {
    let mut store = FsUtils::init_dir();
    store.write_object(&GitObject::Blob(b"hi\n".to_vec())).unwrap();
    store.write_object(&GitObject::Blob(b"other".to_vec())).unwrap();
    let objects = store.take_objects();
    assert_eq!(objects.len(), 2);
    assert_eq!(objects[0].hash, HI);
    assert!(store.objects().is_empty());
    assert_eq!(
        store.read_object_with_hash(HI).err(),
        Some(Error::InvalidHash(HashFault::NotFound))
    );
}

#[test]
fn writing_succeeds_again_after_it_succeeded() {
    let mut store = FsUtils::init_dir();
    let blob = GitObject::Blob(b"again".to_vec());
    let first = store.write_object(&blob);
    assert!(first.is_ok());
    store.write_object(&GitObject::Commit("between".to_string())).unwrap();
    assert_eq!(store.write_object(&blob), first);
}

#[test]
fn object_directory_is_the_first_two_hexadecimal_digits() {
    assert_eq!(FsUtils::object_directory(HI), Some("45".to_string()));
    assert_eq!(FsUtils::object_directory("ab"), Some("ab".to_string()));
    assert_eq!(FsUtils::object_directory("0f3"), Some("0f".to_string()));
    assert_eq!(FsUtils::object_directory("a"), None);
    assert_eq!(FsUtils::object_directory(""), None);
    assert_eq!(FsUtils::object_directory("../etc"), None);
    assert_eq!(FsUtils::object_directory("AB12"), None);
    assert_eq!(FsUtils::object_directory("a/b"), None);
    assert_eq!(FsUtils::object_directory("éé1234"), None);
    assert_eq!(FsUtils::object_directory("4g"), None);
}

#[test]
fn reading_from_the_directory_of_the_prefix_gives_the_same() {
    let mut whole = FsUtils::init_dir();
    whole.write_object(&GitObject::Blob(b"hi\n".to_vec())).unwrap();
    whole.write_object(&GitObject::Blob(b"other".to_vec())).unwrap();
    whole.write_object(&GitObject::Commit("text".to_string())).unwrap();
    for prefix in [HI, "45b983", "45b98", "ffffff", "zz0000", "dc9cbc"] {
        let mut part = FsUtils::init_dir();
        if let Some(dir) = FsUtils::object_directory(prefix) {
            for object in whole.objects() {
                if object.hash.starts_with(&dir) {
                    part.add_object(object.hash.clone(), object.data.clone());
                }
            }
        }
        let from_whole = whole.read_object_with_hash(prefix).map(|o| o.encode());
        let from_part = part.read_object_with_hash(prefix).map(|o| o.encode());
        assert_eq!(from_part, from_whole);
    }
}

#[test]
fn is_hex_accepts_lowercase_hexadecimal_digits() {
    for c in "0123456789abcdef".chars() {
        assert!(FsUtils::is_hex(c));
    }
    for c in "/:`gGAF é\0".chars() {
        assert!(!FsUtils::is_hex(c));
    }
}
