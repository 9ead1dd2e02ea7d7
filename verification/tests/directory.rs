use nonempty::NonEmpty;
use radicle_surf::file_system::directory::{Directory, DirectoryContents, File};
use radicle_surf::file_system::{Label, Path, SystemType};
use std::collections::HashMap;

fn label(name: &str) -> Label {
    Label::from(name)
}

fn prop_all_directories_and_files(
    directory_map: HashMap<Path, NonEmpty<(Label, File)>>,
) -> bool {
    let mut new_directory_map = HashMap::new();
    for (path, files) in directory_map {
        new_directory_map.insert(path.clone(), files);
    }

    let directory = Directory::from_hash_map(new_directory_map.clone());

    for (directory_path, files) in new_directory_map {
        for (file_name, _) in files.iter() {
            let mut path = directory_path.clone();
            if directory.find_directory(&path).is_none() {
                return false;
            }

            path.push(file_name.clone());
            if directory.find_file(&path).is_none() {
                return false;
            }
        }
    }
    true
}

#[test]
fn directory_test_all_directories_and_files() {
    let mut directory_map = HashMap::new();

    let path1 = Path::from_string("foo/bar/baz");
    let file1 = (label("monadic.rs"), File::new(&[]));
    let file2 = (label("oscoin.rs"), File::new(&[]));
    directory_map.insert(path1, NonEmpty::from((file1, vec![file2])));

    let path2 = Path::from_string("foor/bar/quuz");
    let file3 = (label("radicle.rs"), File::new(&[]));

    directory_map.insert(path2, NonEmpty::new(file3));

    assert!(prop_all_directories_and_files(directory_map))
}

#[test]
fn directory_test_file_name_is_same_as_root() {
    // This test ensures that if the name is the same the root of the
    // directory, that search_path.split_last() doesn't toss away the prefix.
    let path = Path::from_string("foo/bar/~");
    let mut directory_map = HashMap::new();
    directory_map.insert(path, NonEmpty::new((Label::root(), File::new(b"root"))));

    assert!(prop_all_directories_and_files(directory_map));
}

#[test]
fn file_size_is_the_number_of_bytes() {
    let file = File::new(
        b"pub mod diff;\npub mod file_system;\npub mod vcs;\npub use crate::vcs::git;\n",
    );
    assert_eq!(file.size(), 73);
    assert_eq!(File::new(b"").size(), 0);
}

#[test]
fn file_checksum_depends_on_the_contents() {
    let file = File::new(
        b"pub mod diff;\npub mod file_system;\npub mod vcs;\npub use crate::vcs::git;\n",
    );
    assert_eq!(file.checksum(), 8457766712413557403);
    assert_eq!(file.checksum(), file.clone().checksum());
    assert_ne!(file.checksum(), File::new(b"pub mod diff;\n").checksum());
}

#[test]
fn listing_shows_files_in_order_of_insertion() {
    let mut directory = Directory::root();
    directory.insert_file(&Path::from_string("foo.hs"), File::new(b"module BananaFoo ..."));
    directory.insert_file(&Path::from_string("bar.hs"), File::new(b"module BananaBar ..."));
    directory.insert_file(&Path::from_string("baz.hs"), File::new(b"module BananaBaz ..."));

    assert_eq!(
        directory.list_directory(),
        vec![
            SystemType::file(label("foo.hs")),
            SystemType::file(label("bar.hs")),
            SystemType::file(label("baz.hs")),
        ]
    );

    let mut listing = directory.list_directory();
    listing.sort();
    assert_eq!(
        listing,
        vec![
            SystemType::file(label("bar.hs")),
            SystemType::file(label("baz.hs")),
            SystemType::file(label("foo.hs")),
        ]
    );
}

#[test]
fn insert_files_at_root_and_below() {
    let mut directory = Directory::root();

    let root_files = NonEmpty::from((
        (label("foo.rs"), File::new(b"use crate::bar")),
        vec![(label("bar.rs"), File::new(b"fn hello_world()"))],
    ));
    directory.insert_files(&[], root_files);

    let haskell_files = NonEmpty::from((
        (label("foo.hs"), File::new(b"module Foo where")),
        vec![(label("bar.hs"), File::new(b"module Bar where"))],
    ));
    directory.insert_files(&[label("haskell")], haskell_files);

    let mut directory_contents = directory.list_directory();
    directory_contents.sort();

    assert_eq!(
        directory_contents,
        vec![
            SystemType::file(label("bar.rs")),
            SystemType::file(label("foo.rs")),
            SystemType::directory(label("haskell")),
        ]
    );
    assert_eq!(
        directory.find_file(&Path::from_string("haskell/bar.hs")),
        Some(File::new(b"module Bar where"))
    );
}

#[test]
fn iter_yields_files_and_directories() {
    let mut root = Directory::root();

    let main = File::new(b"println!(\"Hello, world!\")");
    root.insert_file(&Path::from_string("main.rs"), main.clone());

    let lib = File::new(b"struct Hello(String)");
    root.insert_file(&Path::from_string("lib.rs"), lib.clone());

    let test_mod = File::new(b"assert_eq!(1 + 1, 2);");
    root.insert_file(&Path::from_string("test/mod.rs"), test_mod.clone());

    let mut test_dir = Directory::new(label("test"));
    test_dir.insert_file(&Path::from_string("mod.rs"), test_mod);

    let entries = root.iter();
    assert_eq!(
        entries,
        vec![
            DirectoryContents::File { name: label("main.rs"), file: main },
            DirectoryContents::File { name: label("lib.rs"), file: lib },
            DirectoryContents::Directory(test_dir),
        ]
    );
    let labels: Vec<Label> = entries.iter().map(|entry| entry.label()).collect();
    assert_eq!(labels, vec![label("main.rs"), label("lib.rs"), label("test")]);
}

#[test]
fn find_file_in_root_and_below() {
    let file = File::new(b"module Banana ...");
    let mut directory = Directory::root();
    directory.insert_file(&Path::from_string("foo.hs"), file.clone());
    assert_eq!(directory.find_file(&Path::from_string("foo.hs")), Some(file.clone()));
    assert_eq!(directory.find_file(&Path::from_string("bar.hs")), None);

    let mut directory = Directory::root();
    directory.insert_file(&Path::from_string("foo/bar/baz.rs"), file.clone());
    assert_eq!(directory.find_file(&Path::from_string("foo/bar/baz.rs")), Some(file));
    assert_eq!(directory.find_file(&Path::from_string("foo/bar")), None);
    assert_eq!(directory.find_file(&Path::from_string("foo/bar/baz.rs/more")), None);
    assert!(directory.find_directory(&Path::from_string("foo/bar")).is_some());
    assert!(directory.find_directory(&Path::from_string("foo/bar/baz.rs")).is_none());
}

#[test]
fn current_is_the_label_of_the_directory() {
    let mut root = Directory::root();
    root.insert_file(&Path::from_string("main.rs"), File::new(b"println!(\"Hello, world!\")"));
    root.insert_file(&Path::from_string("lib.rs"), File::new(b"struct Hello(String)"));
    root.insert_file(&Path::from_string("test/mod.rs"), File::new(b"assert_eq!(1 + 1, 2);"));

    assert_eq!(root.current(), Label::root());

    let test = root
        .find_directory(&Path::from_string("test"))
        .expect("Missing test directory");
    assert_eq!(test.current(), label("test"));
    assert_eq!(test.list_directory(), vec![SystemType::file(label("mod.rs"))]);
}

#[test]
fn size_is_the_sum_of_all_files() {
    let mut root = Directory::root();
    assert_eq!(root.size(), 0);
    root.insert_files(
        &[],
        NonEmpty::from((
            (label("main.rs"), File::new(b"println!(\"Hello, world!\")")),
            vec![(label("lib.rs"), File::new(b"struct Hello(String)"))],
        )),
    );
    assert_eq!(root.size(), 45);

    let mut root = Directory::root();
    root.insert_file(&Path::from_string("main.rs"), File::new(b"println!(\"Hello, world!\")"));
    root.insert_file(&Path::from_string("lib.rs"), File::new(b"struct Hello(String)"));
    root.insert_file(&Path::from_string("test/mod.rs"), File::new(b"assert_eq!(1 + 1, 2);"));
    assert_eq!(root.size(), 66);
}

#[test]
fn inserting_again_replaces_the_file() {
    let mut root = Directory::root();
    root.insert_file(&Path::from_string("a/b"), File::new(b"first"));
    root.insert_file(&Path::from_string("a/b"), File::new(b"second!"));
    assert_eq!(root.find_file(&Path::from_string("a/b")), Some(File::new(b"second!")));
    assert_eq!(root.size(), 7);
    assert_eq!(root.list_directory(), vec![SystemType::directory(label("a"))]);
}

#[test]
fn a_file_gives_way_to_a_directory_and_back() {
    let mut root = Directory::root();
    root.insert_file(&Path::from_string("a"), File::new(b"file"));
    root.insert_file(&Path::from_string("a/b"), File::new(b"below"));
    assert_eq!(root.find_file(&Path::from_string("a")), None);
    assert_eq!(root.find_file(&Path::from_string("a/b")), Some(File::new(b"below")));
    assert_eq!(root.list_directory(), vec![SystemType::directory(label("a"))]);

    root.insert_file(&Path::from_string("a"), File::new(b"file"));
    assert_eq!(root.find_file(&Path::from_string("a")), Some(File::new(b"file")));
    assert_eq!(root.find_file(&Path::from_string("a/b")), None);
    assert_eq!(root.list_directory(), vec![SystemType::file(label("a"))]);
}

#[test]
fn files_of_the_root_path_go_directly_under_the_root() {
    let mut directory_map = HashMap::new();
    directory_map.insert(Path::root(), NonEmpty::new((label("top.rs"), File::new(b"top"))));
    directory_map.insert(
        Path::from_string("src"),
        NonEmpty::new((label("lib.rs"), File::new(b"lib"))),
    );
    let directory = Directory::from_hash_map(directory_map);

    assert_eq!(directory.find_file(&Path::from_string("top.rs")), Some(File::new(b"top")));
    assert_eq!(directory.find_file(&Path::from_string("~/top.rs")), None);
    assert_eq!(directory.find_file(&Path::from_string("src/lib.rs")), Some(File::new(b"lib")));
    assert_eq!(directory.size(), 6);
}

#[test]
fn a_file_named_as_the_root_is_found_at_its_path() {
    let mut directory_map = HashMap::new();
    directory_map.insert(
        Path::from_string("foo/bar"),
        NonEmpty::new((Label::root(), File::new(b"root"))),
    );
    let directory = Directory::from_hash_map(directory_map);
    assert_eq!(
        directory.find_file(&Path::from_string("foo/bar/~")),
        Some(File::new(b"root"))
    );
    assert_eq!(directory.find_file(&Path::from_string("~")), None);
    assert!(directory.find_directory(&Path::from_string("foo/bar")).is_some());
}

#[test]
fn from_pairs_inserts_in_order() {
    let pairs = vec![
        (Path::from_string("a"), NonEmpty::new((label("x"), File::new(b"1")))),
        (Path::from_string("a"), NonEmpty::new((label("x"), File::new(b"22")))),
    ];
    let directory = Directory::from_pairs(pairs);
    assert_eq!(directory.find_file(&Path::from_string("a/x")), Some(File::new(b"22")));
    assert_eq!(directory.size(), 2);
}

#[test]
fn insert_each_inserts_one_after_the_other() {
    let mut directory = Directory::root();
    directory.insert_each(
        &[label("a"), label("b")],
        vec![
            (label("x"), File::new(b"1")),
            (label("y"), File::new(b"22")),
            (label("x"), File::new(b"333")),
        ],
    );
    directory.insert_each(&[], vec![(label("top"), File::new(b"4444"))]);
    directory.insert_each(&[label("c")], vec![]);
    assert_eq!(directory.find_file(&Path::from_string("a/b/x")), Some(File::new(b"333")));
    assert_eq!(directory.find_file(&Path::from_string("a/b/y")), Some(File::new(b"22")));
    assert_eq!(directory.find_file(&Path::from_string("top")), Some(File::new(b"4444")));
    assert_eq!(
        directory.list_directory(),
        vec![SystemType::directory(label("a")), SystemType::file(label("top"))]
    );
    assert_eq!(directory.size(), 9);
}

#[test]
fn the_empty_map_gives_the_empty_root() {
    let directory = Directory::from_hash_map(HashMap::new());
    assert_eq!(directory, Directory::root());
    assert_eq!(directory.list_directory(), vec![]);
    assert_eq!(Directory::from_pairs(Vec::new()), Directory::root());
}

#[test]
fn every_key_of_the_map_is_a_directory_with_its_files() {
    let mut map = HashMap::new();
    map.insert(
        Path::from_string("a/b"),
        NonEmpty::from(((label("x"), File::new(b"1")), vec![(label("y"), File::new(b"22"))])),
    );
    map.insert(Path::from_string("a/c"), NonEmpty::new((label("x"), File::new(b"333"))));
    map.insert(Path::from_string("d"), NonEmpty::new((label("z"), File::new(b"4444"))));
    let directory = Directory::from_hash_map(map.clone());
    assert_eq!(directory.size(), 10);
    assert!(!directory.list_directory().is_empty());
    for (key, files) in map {
        let found = directory.find_directory(&key).expect("directory of a key");
        assert!(!found.list_directory().is_empty());
        for (name, file) in files {
            let mut path = key.clone();
            path.push(name);
            assert_eq!(directory.find_file(&path), Some(file));
        }
    }
}
